//! The bindings that unification comes up with, and how they are committed to the cache.

use crate::cache::{Binding, Cache, ModuleCache, TypeBinding};
use crate::types::{LetBindingLevel, Ty, Type, TypeVariableId};
use std::collections::HashMap;
use vstd::prelude::*;

verus! {

broadcast use vstd::std_specs::hash::group_hash_axioms;

/// A sparse set of type bindings: from the index of a type variable to a type.
pub type TypeBindings = HashMap<usize, Type>;

/// Variables, each with a level that it is to be lowered to.
pub type LevelBindings = Vec<(TypeVariableId, LetBindingLevel)>;

/// The model of a `TypeBindings`.
pub open spec fn types_of(m: Map<usize, Type>) -> Map<usize, Ty> {
    Map::new(|k: usize| m.contains_key(k), |k: usize| m[k]@)
}

/// What unification binds: variables to types, and variables to the lower levels they are to
/// have because they became reachable from a variable of that level.
#[derive(Debug)]
pub struct UnificationBindings {
    pub bindings: TypeBindings,
    pub level_bindings: LevelBindings,
}

/// The model of a `UnificationBindings`.
#[verifier::ext_equal]
pub struct Solution {
    pub types: Map<usize, Ty>,
    pub levels: Seq<(TypeVariableId, LetBindingLevel)>,
}

impl View for UnificationBindings {
    type V = Solution;

    open spec fn view(&self) -> Solution {
        Solution { types: types_of(self.bindings@), levels: self.level_bindings@ }
    }
}

impl Solution {
    /// The solution that binds nothing.
    pub open spec fn empty() -> Solution {
        Solution { types: Map::empty(), levels: Seq::empty() }
    }

    /// The solution that binds a further variable.
    pub open spec fn insert(self, id: TypeVariableId, t: Ty) -> Solution {
        Solution { types: self.types.insert(id.0, t), levels: self.levels }
    }

    /// All variables named here are variables of the cache.
    pub open spec fn known_to(self, c: Cache) -> bool {
        &&& forall|k: usize| #[trigger] self.types.contains_key(k) ==> k < c.type_bindings.len()
        &&& forall|i: int|
            0 <= i < self.levels.len() ==> (#[trigger] self.levels[i]).0.0 < c.type_bindings.len()
    }
}

/// The lower one of two levels.
pub open spec fn min_level(a: LetBindingLevel, b: LetBindingLevel) -> LetBindingLevel {
    if a.0 <= b.0 {
        a
    } else {
        b
    }
}

/// The variables after those with a type in the map were bound to it.
pub open spec fn bind_all(vars: Seq<Binding>, types: Map<usize, Ty>) -> Seq<Binding> {
    Seq::new(
        vars.len(),
        |i: int|
            if types.contains_key(i as usize) {
                Binding::Bound(types[i as usize])
            } else {
                vars[i]
            },
    )
}

/// The variables after each level binding, in turn, lowered its variable to its level. A variable
/// that is bound has no level, and one that is low enough keeps its own.
pub open spec fn lower_levels(
    vars: Seq<Binding>,
    levels: Seq<(TypeVariableId, LetBindingLevel)>,
) -> Seq<Binding>
    decreases levels.len(),
{
    if levels.len() == 0 {
        vars
    } else {
        let before = lower_levels(vars, levels.drop_last());
        let (id, level) = levels.last();
        match before[id.0 as int] {
            Binding::Bound(_) => before,
            Binding::Unbound(own, kind) => before.update(
                id.0 as int,
                Binding::Unbound(min_level(level, own), kind),
            ),
        }
    }
}

impl Cache {
    /// The cache after a solution was committed to it.
    pub open spec fn perform(self, s: Solution) -> Cache {
        Cache {
            type_bindings: lower_levels(bind_all(self.type_bindings, s.types), s.levels),
            ..self
        }
    }
}

/// What the type bindings hold for a variable.
pub fn get_binding<'a>(bindings: &'a TypeBindings, id: TypeVariableId) -> (r: Option<&'a Type>)
    ensures
        match r {
            Some(t) => types_of(bindings@).contains_key(id.0) && types_of(bindings@)[id.0] == t@,
            None => !types_of(bindings@).contains_key(id.0),
        },
{
    bindings.get(&id.0)
}

/// Whether there are no type bindings.
pub fn is_empty(bindings: &TypeBindings) -> (r: bool)
    ensures
        r == (types_of(bindings@) == Map::<usize, Ty>::empty()),
{
    let r = bindings.len() == 0;
    proof {
        let m = types_of(bindings@);
        if r {
            assert(bindings@.dom() =~= Set::<usize>::empty());
            assert(m =~= Map::empty());
        } else if m == Map::<usize, Ty>::empty() {
            assert forall|k: usize| !bindings@.contains_key(k) by {
                assert(!m.contains_key(k));
            }
            assert(bindings@.dom() =~= Set::<usize>::empty());
        }
    }
    r
}

/// Sets the binding of a variable, replacing the one it had.
pub fn insert_binding(bindings: &mut TypeBindings, id: TypeVariableId, t: Type)
    ensures
        types_of(final(bindings)@) == types_of(old(bindings)@).insert(id.0, t@),
{
    let ghost before = bindings@;
    bindings.insert(id.0, t);
    assert(types_of(bindings@) =~= types_of(before).insert(id.0, t@));
}

/// Binds all the given variables for good.
pub fn perform_type_bindings(bindings: TypeBindings, cache: &mut ModuleCache)
    requires
        forall|k: usize|
            #[trigger] bindings@.contains_key(k) ==> k < old(cache)@.type_bindings.len(),
    ensures
        final(cache)@ == (Cache {
            type_bindings: bind_all(old(cache)@.type_bindings, types_of(bindings@)),
            ..old(cache)@
        }),
{
    let ghost before = cache@;
    for entry in it: bindings.iter()
        invariant
            forall|k: usize|
                #[trigger] bindings@.contains_key(k) ==> k < before.type_bindings.len(),
            forall|k: usize| #[trigger]
                bindings@.contains_key(k) ==> (exists|i: int|
                    it.index() <= i < it.seq().len() && *(#[trigger] it.seq()[i]).0 == k)
                    || cache@.type_bindings[k as int] == Binding::Bound(bindings@[k]@),
            forall|i: int|
                #![trigger it.seq()[i]]
                0 <= i < it.seq().len() ==> bindings@.contains_key(*it.seq()[i].0)
                    && bindings@[*it.seq()[i].0] == *it.seq()[i].1,
            cache@.type_bindings.len() == before.type_bindings.len(),
            cache@ == (Cache { type_bindings: cache@.type_bindings, ..before }),
            forall|j: int|
                #![trigger cache@.type_bindings[j]]
                0 <= j < before.type_bindings.len() ==> cache@.type_bindings[j]
                    == before.type_bindings[j] || (bindings@.contains_key(j as usize)
                    && cache@.type_bindings[j] == Binding::Bound(bindings@[j as usize]@)),
            forall|i: int|
                #![trigger it.seq()[i]]
                0 <= i < it.index() ==> cache@.type_bindings[*it.seq()[i].0 as int]
                    == Binding::Bound(it.seq()[i].1@),
    {
        let (id, typ) = entry;
        cache.bind(TypeVariableId(*id), typ.clone());
    }
    proof {
        let types = types_of(bindings@);
        let vars = cache@.type_bindings;
        assert(vars.len() == cache.type_bindings.len());
        assert forall|j: int| 0 <= j < before.type_bindings.len() implies vars[j] == bind_all(
            before.type_bindings,
            types,
        )[j] by {
            if bindings@.contains_key(j as usize) {
                assert(types.contains_key(j as usize));
                assert(vars[(j as usize) as int] == Binding::Bound(bindings@[j as usize]@));
            }
        }
        assert(vars =~= bind_all(before.type_bindings, types));
    }
}


impl UnificationBindings {
    /// The bindings that bind nothing.
    pub fn empty() -> (r: UnificationBindings)
        ensures
            r@ == Solution::empty(),
    {
        let r = UnificationBindings { bindings: HashMap::new(), level_bindings: Vec::new() };
        assert(r@.types =~= Map::empty());
        r
    }

    /// Commits to the bindings: binds each variable to its type and lowers the levels of those
    /// that are still unbound.
    pub fn perform(self, cache: &mut ModuleCache)
        requires
            self@.known_to(old(cache)@),
        ensures
            final(cache)@ == old(cache)@.perform(self@),
    {
        let ghost before = cache@;
        let ghost solution = self@;
        assert forall|k: usize| #[trigger] self.bindings@.contains_key(k) implies k
            < before.type_bindings.len() by {
            assert(solution.types.contains_key(k));
        }
        let levels = self.level_bindings;
        perform_type_bindings(self.bindings, cache);
        let ghost vars = bind_all(before.type_bindings, solution.types);
        let mut i: usize = 0;
        assert(levels@.take(0) =~= Seq::empty());
        while i < levels.len()
            invariant
                i <= levels.len(),
                levels@ == solution.levels,
                solution.known_to(before),
                vars == bind_all(before.type_bindings, solution.types),
                lower_levels(vars, levels@.take(i as int)).len() == before.type_bindings.len(),
                cache@ == (Cache {
                    type_bindings: lower_levels(vars, levels@.take(i as int)),
                    ..before
                }),
            decreases levels.len() - i,
        {
            let (id, level) = levels[i];
            proof {
                assert(levels@.take(i + 1).drop_last() =~= levels@.take(i as int));
                assert(levels@.take(i + 1).last() == levels@[i as int]);
                assert(solution.levels[i as int].0.0 < before.type_bindings.len());
                assert(cache@.type_bindings[id.0 as int] == cache.type_bindings@[id.0 as int]@);
            }
            match &cache.type_bindings[id.0] {
                TypeBinding::Bound(_) => {},
                TypeBinding::Unbound(original_level, kind) => {
                    let lowered: LetBindingLevel = if level.0 <= original_level.0 {
                        level
                    } else {
                        *original_level
                    };
                    let kind = *kind;
                    let ghost now = cache@;
                    cache.type_bindings.set(id.0, TypeBinding::Unbound(lowered, kind));
                    assert(cache@.type_bindings =~= now.type_bindings.update(
                        id.0 as int,
                        Binding::Unbound(lowered, kind),
                    ));
                },
            }
            i += 1;
        }
        assert(levels@.take(i as int) =~= levels@);
    }

    /// Adds the other bindings to these. Where both bind a variable, the other one stays.
    pub fn extend(&mut self, other: UnificationBindings)
        ensures
            final(self)@.types == old(self)@.types.union_prefer_right(other@.types),
            final(self)@.levels == old(self)@.levels + other@.levels,
    {
        let ghost before = self@;
        let ghost added = other@;
        let mut other_levels = other.level_bindings;
        for entry in it: other.bindings.iter()
            invariant
                added.types == types_of(other.bindings@),
                self.level_bindings@ == before.levels,
                forall|i: int|
                    #![trigger it.seq()[i]]
                    0 <= i < it.seq().len() ==> other.bindings@.contains_key(*it.seq()[i].0)
                        && other.bindings@[*it.seq()[i].0] == *it.seq()[i].1,
                forall|k: usize| #[trigger]
                    added.types.contains_key(k) ==> (exists|i: int|
                        it.index() <= i < it.seq().len() && *(#[trigger] it.seq()[i]).0 == k) || (
                    self@.types.contains_key(k) && self@.types[k] == added.types[k]),
                forall|k: usize| #[trigger]
                    self@.types.contains_key(k) ==> added.types.contains_key(k)
                        || before.types.contains_key(k),
                forall|k: usize| #[trigger]
                    before.types.contains_key(k) ==> self@.types.contains_key(k) && (
                    self@.types[k] == before.types[k] || (added.types.contains_key(k)
                        && self@.types[k] == added.types[k])),
                forall|k: usize| #[trigger]
                    self@.types.contains_key(k) ==> self@.types[k] == before.types[k] || (
                    added.types.contains_key(k) && self@.types[k] == added.types[k]),
        {
            let (id, typ) = entry;
            assert(other.bindings@.contains_key(*id));
            assert(added.types.contains_key(*id));
            let ghost now = self@.types;
            insert_binding(&mut self.bindings, TypeVariableId(*id), typ.clone());
            assert(self@.types == now.insert(*id, typ@));
            assert forall|k: usize| #[trigger] self@.types.contains_key(k) && k != *id implies
                now.contains_key(k) by {}
        }
        assert(self@.types =~= before.types.union_prefer_right(added.types));
        self.level_bindings.append(&mut other_levels);
    }
}

} // verus!
