//! What impls come to: their definitions get the types of the members of the trait, and use only
//! the traits that are given to them, or have to be resolved. And what a whole program comes to.

use crate::access_laws::is_reported;
use crate::accord::{
    all_clean, clean, is_island, lemma_clean_in_larger, lemma_island_is_quiet, lemma_seq_regular,
};
use crate::agreement::{agree, all_agree, committed, law_agreement_stays, lemma_seq_sound};
use crate::cache::{
    Cache, Def, DefinitionInfoId, Location, Report, Required, Scheme, Signature, TraitInfoId,
    INITIAL_LEVEL,
};
use crate::impls::{
    check_step, fits, matching, member_of, named_from, pattern_binding_step, required_signatures,
    trait_is_missing, visit_bound, BindingTodo, Check, PatternBinding,
};
use crate::patterns::Visit;
use crate::programs::{impl_bindings, program_finished, program_inferred, zipped};
use crate::resolve::MAX_DEPTH;
use crate::rule_laws::reports_nothing;
use crate::solve::unification_of_all;
use crate::subst::replace;
use crate::subst_laws::lemma_replace_grows;
use crate::tree::{inferred, Inferable, Tree};
use crate::types::{LetBindingLevel, Ty, TypeVariableId};
use crate::unify::unify_seq;
use crate::unify_laws::{is_open, is_proper, lemma_seq_itself, lemma_unify_seq_keeps};
use vstd::prelude::*;

verus! {

/// Whether the definition is the first of the trait's that has the name.
pub open spec fn is_member(
    i: int,
    id: DefinitionInfoId,
    name: Seq<char>,
    trait_id: TraitInfoId,
    c: Cache,
) -> bool {
    let ids = c.trait_infos[trait_id.0 as int].definitions;
    &&& trait_id.0 < c.trait_infos.len()
    &&& 0 <= i < ids.len()
    &&& ids[i] == id
    &&& id.0 < c.definition_infos.len()
    &&& c.definition_infos[id.0 as int].name == name
    &&& forall|j: int|
        0 <= j < i ==> (#[trigger] ids[j]).0 < c.definition_infos.len()
            && c.definition_infos[ids[j].0 as int].name != name
}

/// The member that a trait has for a name is the first of its definitions with that name.
pub proof fn law_member_has_the_name(name: Seq<char>, trait_id: TraitInfoId, c: Cache)
    ensures
        member_of(name, trait_id, c) is Some ==> exists|i: int| #[trigger]
            is_member(i, member_of(name, trait_id, c)->0, name, trait_id, c),
        forall|i: int, id: DefinitionInfoId| #[trigger]
            is_member(i, id, name, trait_id, c) ==> member_of(name, trait_id, c) == Some(id),
{
    if trait_id.0 < c.trait_infos.len() {
        let ids = c.trait_infos[trait_id.0 as int].definitions;
        lemma_named(0, ids, name, c);
        if let Some(id) = member_of(name, trait_id, c) {
            let i = choose|i: int| #[trigger] is_first(i, id, 0, ids, name, c);
            assert(is_member(i, id, name, trait_id, c));
        }
        assert forall|i: int, id: DefinitionInfoId| #[trigger]
            is_member(i, id, name, trait_id, c) implies member_of(name, trait_id, c) == Some(
            id,
        ) by {
            assert(is_first(i, id, 0, ids, name, c));
        }
    }
}

/// Whether the definition is the first, from some position on, that has the name.
pub open spec fn is_first(
    i: int,
    id: DefinitionInfoId,
    start: nat,
    ids: Seq<DefinitionInfoId>,
    name: Seq<char>,
    c: Cache,
) -> bool {
    &&& start <= i < ids.len()
    &&& ids[i] == id
    &&& id.0 < c.definition_infos.len()
    &&& c.definition_infos[id.0 as int].name == name
    &&& forall|j: int|
        start <= j < i ==> (#[trigger] ids[j]).0 < c.definition_infos.len()
            && c.definition_infos[ids[j].0 as int].name != name
}

proof fn lemma_named(start: nat, ids: Seq<DefinitionInfoId>, name: Seq<char>, c: Cache)
    ensures
        named_from(start, ids, name, c) is Some ==> exists|i: int| #[trigger]
            is_first(i, named_from(start, ids, name, c)->0, start, ids, name, c),
        forall|i: int, id: DefinitionInfoId| #[trigger]
            is_first(i, id, start, ids, name, c) ==> named_from(start, ids, name, c) == Some(id),
    decreases ids.len() - start,
{
    if start < ids.len() {
        lemma_named(start + 1, ids, name, c);
        let own = ids[start as int];
        if own.0 < c.definition_infos.len() {
            if c.definition_infos[own.0 as int].name == name {
                assert(is_first(start as int, own, start, ids, name, c));
                assert(named_from(start, ids, name, c) == Some(own));
                let found = named_from(start, ids, name, c)->0;
                assert(is_first(start as int, found, start, ids, name, c));
            } else if let Some(id) = named_from(start + 1, ids, name, c) {
                let i = choose|i: int| #[trigger] is_first(i, id, start + 1, ids, name, c);
                assert forall|j: int| start <= j < i implies (#[trigger] ids[j]).0
                    < c.definition_infos.len() && c.definition_infos[ids[j].0 as int].name
                    != name by {}
                assert(is_first(i, id, start, ids, name, c));
                assert(named_from(start, ids, name, c) == Some(id));
                let found = named_from(start, ids, name, c)->0;
                assert(is_first(i, found, start, ids, name, c));
            } else {
                assert(named_from(start, ids, name, c) is None);
            }
        } else {
            assert(named_from(start, ids, name, c) is None);
        }
        assert forall|i: int, id: DefinitionInfoId| #[trigger]
            is_first(i, id, start, ids, name, c) implies named_from(start, ids, name, c) == Some(
            id,
        ) by {
            if i > start {
                let _ = ids[start as int];
                assert(is_first(i, id, start + 1, ids, name, c));
            }
        }
    } else {
        assert(named_from(start, ids, name, c) is None);
    }
}

/// A variable that an impl defines gets the type of the trait's member of its name, in which each
/// variable is replaced as the bindings say, to which new ones are only added. No other definition
/// changes.
pub proof fn law_member_gets_the_type_of_the_trait(
    visit: Visit,
    trait_id: TraitInfoId,
    types: Map<usize, Ty>,
    c: Cache,
)
    requires
        visit is Variable,
        visit_bound(visit, trait_id, types, c) is Some,
    ensures
        ({
            let (types1, c1) = visit_bound(visit, trait_id, types, c)->0;
            let id = visit->Variable_1->0;
            let member = member_of(visit->Variable_0, trait_id, c)->0;
            let before = c.definition_infos[member.0 as int];
            &&& visit->Variable_1 is Some
            &&& member_of(visit->Variable_0, trait_id, c) is Some
            &&& before.typ is Some
            &&& c1.definition_infos.len() == c.definition_infos.len()
            &&& id.0 < c.definition_infos.len()
            &&& c1.definition_infos[id.0 as int].typ matches Some(Scheme::Mono(t)) && (replace(
                MAX_DEPTH as nat,
                before.typ->0.body(),
                types,
                c,
            ) matches Some((u, m, c2)) && u == t && m == types1 && c2.type_bindings
                == c1.type_bindings)
            &&& forall|i: int|
                0 <= i < c.definition_infos.len() && i != id.0 ==> #[trigger] c1.definition_infos[i]
                    == c.definition_infos[i]
            &&& reports_nothing(c, c1)
        }),
{
    let member = member_of(visit->Variable_0, trait_id, c)->0;
    let t = c.definition_infos[member.0 as int].typ->0.body();
    lemma_replace_grows(MAX_DEPTH as nat, t, types, c);
}

/// A given trait that was found to be the one used is the same trait, at as many arguments, and
/// where no row of fields is involved they agree with the arguments it is used at.
pub proof fn law_found_trait_fits(used: Signature, given: Seq<Signature>, c: Cache)
    requires
        matching(used, given, c) matches Some((Some(_), c1)) && c1.type_bindings.len()
            <= usize::MAX,
    ensures
        ({
            let (id, c1) = matching(used, given, c)->0;
            exists|i: int| #[trigger] is_fitting(i, used, given, c1) && given[i].id == id->0
        }),
    decreases given.len(),
{
    let (id, c1) = matching(used, given, c)->0;
    let rest = given.skip(1);
    if given[0].trait_id != used.trait_id {
        law_found_trait_fits(used, rest, c);
        let i = choose|i: int| #[trigger] is_fitting(i, used, rest, c1) && rest[i].id == id->0;
        assert(given[i + 1] == rest[i]);
        assert(is_fitting(i + 1, used, given, c1));
    } else {
        let (fitting, c2) = fits(used.args, given[0].args, c)->0;
        if fitting {
            lemma_fitting(used.args, given[0].args, c);
            assert(is_fitting(0, used, given, c1));
        } else {
            law_found_trait_fits(used, rest, c2);
            let i = choose|i: int| #[trigger] is_fitting(i, used, rest, c1) && rest[i].id == id->0;
            assert(given[i + 1] == rest[i]);
            assert(is_fitting(i + 1, used, given, c1));
        }
    }
}

/// Whether the given trait in that place is the one used, at arguments that agree with those it is
/// used at where no row of fields is involved.
pub open spec fn is_fitting(i: int, used: Signature, given: Seq<Signature>, c: Cache) -> bool {
    &&& 0 <= i < given.len()
    &&& given[i].trait_id == used.trait_id
    &&& given[i].args.len() == used.args.len()
    &&& forall|k: Set<usize>| #[trigger]
        is_island(k, c.type_bindings) && all_clean(used.args, k) && all_clean(given[i].args, k)
            ==> all_agree(false, used.args, given[i].args, committed(c))
}

proof fn lemma_fitting(used: Seq<Ty>, args: Seq<Ty>, c: Cache)
    requires
        fits(used, args, c) matches Some((true, c1)) && c1.type_bindings.len() <= usize::MAX,
    ensures
        fits(used, args, c) matches Some((_, c1)) && used.len() == args.len() && forall|
            k: Set<usize>,
        | #[trigger]
            is_island(k, c1.type_bindings) && all_clean(used, k) && all_clean(args, k)
                ==> all_agree(false, used, args, committed(c1)),
{
    let (_, c1) = fits(used, args, c)->0;
    let s = committed(c);
    let depth = MAX_DEPTH as nat;
    lemma_unify_seq_keeps(depth, used, args, s);
    let step = unify_seq(depth, used, args, s)->0;
    let r = step.state;
    assert(is_proper(s));
    assert forall|k: Set<usize>| #[trigger]
        is_island(k, c1.type_bindings) && all_clean(used, k) && all_clean(args, k) implies
        all_agree(false, used, args, committed(c1)) by {
        let all = lemma_island_is_quiet(k, c.type_bindings.len(), c, c1);
        assert forall|i: int| 0 <= i < used.len() implies clean(
            #[trigger] used[i],
            all,
        ) by {
            lemma_clean_in_larger(used[i], k, all);
        }
        assert forall|i: int| 0 <= i < args.len() implies clean(
            #[trigger] args[i],
            all,
        ) by {
            lemma_clean_in_larger(args[i], k, all);
        }
        lemma_seq_regular(all, depth, used, args, s);
        lemma_seq_sound(false, depth, used, args, s);
        assert forall|i: int| 0 <= i < used.len() && i < args.len() implies agree(
            false,
            #[trigger] used[i],
            args[i],
            committed(c1),
        ) by {
            law_agreement_stays(false, used[i], args[i], r, committed(c1));
        }
    }
}

/// A trait that is given at the very arguments it is used at is found. One that is another trait,
/// or at another number of arguments, is passed over.
pub proof fn law_given_trait_is_found(used: Signature, given: Seq<Signature>, c: Cache)
    requires
        given.len() > 0,
    ensures
        given[0].trait_id == used.trait_id && given[0].args == used.args && (forall|i: int|
            0 <= i < used.args.len() ==> is_open(
                MAX_DEPTH as nat,
                #[trigger] used.args[i],
                committed(c),
            )) ==> matching(used, given, c) == Some((Some(given[0].id), c)),
        given[0].trait_id != used.trait_id || given[0].args.len() != used.args.len() ==> matching(
            used,
            given,
            c,
        ) == matching(used, given.skip(1), c),
{
    if given[0].trait_id == used.trait_id && given[0].args == used.args && (forall|i: int|
        0 <= i < used.args.len() ==> is_open(
            MAX_DEPTH as nat,
            #[trigger] used.args[i],
            committed(c),
        )) {
        lemma_seq_itself(MAX_DEPTH as nat, used.args, committed(c));
        assert(unification_of_all(used.args, used.args, committed(c))->0.state == committed(c));
    }
}

/// Whether what is kept are the used traits, each under the id of one that is allowed and is the
/// same trait.
pub open spec fn are_kept(
    kept: Seq<Required>,
    used: Seq<Required>,
    allowed: Seq<Signature>,
) -> bool {
    &&& kept.len() == used.len()
    &&& forall|i: int|
        0 <= i < used.len() ==> is_kept(#[trigger] kept[i], used[i], allowed)
}

/// Whether what is kept is the used trait under the id of one that is allowed.
pub open spec fn is_kept(kept: Required, used: Required, allowed: Seq<Signature>) -> bool {
    &&& kept.callsite == used.callsite
    &&& kept.signature.trait_id == used.signature.trait_id
    &&& kept.signature.args == used.signature.args
    &&& exists|j: int|
        0 <= j < allowed.len() && (#[trigger] allowed[j]).id == kept.signature.id
            && allowed[j].trait_id == used.signature.trait_id
}

/// The check of what a definition uses goes through the used traits in order. Each one is kept
/// under the id of one that is allowed, or it has to be resolved, and the check goes on after it.
/// At the end the definition requires just what was kept.
pub proof fn law_used_traits_are_kept_or_resolved(k: Check, given: Seq<Signature>, c: Cache)
    requires
        check_step(k, given, c) matches Some((_, c1, _)) && c1.type_bindings.len() <= usize::MAX,
        0 <= k.next <= k.used.len(),
    ensures
        ({
            let (k1, c1, todo) = check_step(k, given, c)->0;
            let allowed = required_signatures(k.useable) + given;
            let n = k.kept.len() as int;
            let id = k.definition.0 as int;
            &&& k1 == (Check { next: k1.next, kept: k1.kept, ..k })
            &&& n <= k1.kept.len()
            &&& k1.kept.take(n) == k.kept
            &&& reports_nothing(c, c1)
            &&& match todo {
                Some(constraint) => {
                    &&& k.next < k1.next <= k.used.len()
                    &&& constraint.required == k.used[k1.next - 1]
                    &&& Some(constraint.scope) == k.scope
                    &&& are_kept(k1.kept.skip(n), k.used.subrange(k.next, k1.next - 1), allowed)
                    &&& c1.definition_infos == c.definition_infos
                },
                None => {
                    &&& k1.next == k.used.len()
                    &&& are_kept(k1.kept.skip(n), k.used.subrange(k.next, k1.next), allowed)
                    &&& id < c.definition_infos.len()
                    &&& c1.definition_infos.len() == c.definition_infos.len()
                    &&& c1.definition_infos[id].required_traits == k1.kept
                    &&& c1.definition_infos[id].typ == c.definition_infos[id].typ
                    &&& forall|i: int|
                        0 <= i < c.definition_infos.len() && i != id ==> #[trigger]
                            c1.definition_infos[i] == c.definition_infos[i]
                },
            }
        }),
    decreases k.used.len() - k.next,
{
    let (k1, c1, todo) = check_step(k, given, c)->0;
    let allowed = required_signatures(k.useable) + given;
    let n = k.kept.len() as int;
    assert(k.kept.take(n) =~= k.kept);
    assert(k.kept.skip(n) =~= Seq::empty());
    if k.next < k.used.len() {
        let used = k.used[k.next];
        lemma_matching_keeps(used.signature, allowed, c);
        if let Some((Some(id), c2)) = matching(used.signature, allowed, c) {
            let own = Required { signature: Signature { id, ..used.signature }, ..used };
            let next = Check { next: k.next + 1, kept: k.kept.push(own), ..k };
            law_used_traits_are_kept_or_resolved(next, given, c2);
            lemma_found_is_allowed(used.signature, allowed, c);
            assert(is_kept(own, used, allowed));
            let rest = k1.kept.skip(n + 1);
            assert(k1.kept.take(n + 1) == k.kept.push(own));
            assert(k1.kept[n] == k1.kept.take(n + 1)[n]);
            assert(k1.kept.take(n) =~= k1.kept.take(n + 1).take(n));
            assert(k.kept.push(own).take(n) =~= k.kept);
            let last = if todo is Some {
                k1.next - 1
            } else {
                k1.next
            };
            let all = k.used.subrange(k.next, last);
            let others = k.used.subrange(k.next + 1, last);
            assert(are_kept(rest, others, allowed));
            assert forall|i: int| 0 <= i < all.len() implies is_kept(
                #[trigger] k1.kept.skip(n)[i],
                all[i],
                allowed,
            ) by {
                if i > 0 {
                    assert(rest[i - 1] == k1.kept.skip(n)[i]);
                    assert(others[i - 1] == all[i]);
                }
            }
        }
    }
}

proof fn lemma_matching_keeps(used: Signature, given: Seq<Signature>, c: Cache)
    ensures
        matching(used, given, c) matches Some((_, c1)) ==> c1.definition_infos == c.definition_infos
            && c1.diagnostics == c.diagnostics && c.type_bindings.len() <= c1.type_bindings.len(),
    decreases given.len(),
{
    if given.len() > 0 && matching(used, given, c) is Some {
        if given[0].trait_id != used.trait_id {
            lemma_matching_keeps(used, given.skip(1), c);
        } else {
            lemma_unify_seq_keeps(MAX_DEPTH as nat, used.args, given[0].args, committed(c));
            let (fitting, c1) = fits(used.args, given[0].args, c)->0;
            if !fitting {
                lemma_matching_keeps(used, given.skip(1), c1);
            }
        }
    }
}

proof fn lemma_found_is_allowed(used: Signature, given: Seq<Signature>, c: Cache)
    requires
        matching(used, given, c) matches Some((Some(_), _)),
    ensures
        matching(used, given, c) matches Some((Some(id), _)) && exists|j: int|
            0 <= j < given.len() && (#[trigger] given[j]).id == id && given[j].trait_id
                == used.trait_id,
    decreases given.len(),
{
    let id = (matching(used, given, c)->0).0->0;
    let rest = given.skip(1);
    let _ = given[0];
    if given[0].trait_id != used.trait_id {
        lemma_found_is_allowed(used, rest, c);
    } else {
        let (fitting, c1) = fits(used.args, given[0].args, c)->0;
        if !fitting {
            lemma_found_is_allowed(used, rest, c1);
        }
    }
    if !(given[0].id == id && given[0].trait_id == used.trait_id) {
        let j = choose|j: int|
            0 <= j < rest.len() && (#[trigger] rest[j]).id == id && rest[j].trait_id
                == used.trait_id;
        assert(given[j + 1] == rest[j]);
    }
}

/// The variables of a trait are bound to the arguments of an impl: each to the last one that stands
/// in its place, and no other variable is bound.
pub proof fn law_trait_variables_are_bound(trait_id: TraitInfoId, types: Seq<Ty>, c: Cache)
    requires
        trait_id.0 < c.trait_infos.len(),
    ensures
        impl_bindings(Some(trait_id), types, c) matches Some(m) && {
            let info = c.trait_infos[trait_id.0 as int];
            let vars = info.typeargs + info.fundeps;
            &&& forall|i: int|
                #![trigger vars[i]]
                0 <= i < vars.len() && i < types.len() ==> m.contains_key(vars[i].0) && (
                (forall|j: int|
                    i < j < vars.len() && j < types.len() ==> (#[trigger] vars[j]).0 != vars[i].0)
                    ==> m[vars[i].0] == types[i])
            &&& forall|k: usize| #[trigger]
                m.contains_key(k) ==> exists|i: int|
                    0 <= i < vars.len() && i < types.len() && (#[trigger] vars[i]).0 == k
                        && m[k] == types[i]
        },
{
    let info = c.trait_infos[trait_id.0 as int];
    let vars = info.typeargs + info.fundeps;
    let n = if vars.len() < types.len() {
        vars.len()
    } else {
        types.len()
    };
    lemma_zipped(n, vars, types);
}

proof fn lemma_zipped(n: nat, vars: Seq<TypeVariableId>, types: Seq<Ty>)
    requires
        n <= vars.len(),
        n <= types.len(),
    ensures
        ({
            let m = zipped(n, vars, types);
            &&& forall|i: int|
                #![trigger vars[i]]
                0 <= i < n ==> m.contains_key(vars[i].0) && ((forall|j: int|
                    i < j < n ==> (#[trigger] vars[j]).0 != vars[i].0) ==> m[vars[i].0]
                    == types[i])
            &&& forall|k: usize| #[trigger]
                m.contains_key(k) ==> exists|i: int|
                    0 <= i < n && (#[trigger] vars[i]).0 == k && m[k] == types[i]
        }),
    decreases n,
{
    if n > 0 {
        let h = (n - 1) as nat;
        lemma_zipped(h, vars, types);
        let before = zipped(h, vars, types);
        let m = zipped(n, vars, types);
        let last = vars[n - 1];
        assert forall|i: int|
            #![trigger vars[i]]
            0 <= i < n implies m.contains_key(vars[i].0) && ((forall|j: int|
            i < j < n ==> (#[trigger] vars[j]).0 != vars[i].0) ==> m[vars[i].0] == types[i]) by {
            if i < h && (forall|j: int| i < j < n ==> (#[trigger] vars[j]).0 != vars[i].0) {
                assert(vars[n - 1].0 != vars[i].0);
                assert(before[vars[i].0] == types[i]);
            }
        }
        assert forall|k: usize| #[trigger] m.contains_key(k) implies exists|i: int|
            0 <= i < n && (#[trigger] vars[i]).0 == k && m[k] == types[i] by {
            if k == last.0 {
                assert(vars[n - 1].0 == k && m[k] == types[n - 1]);
            } else {
                assert(before.contains_key(k));
                let i = choose|i: int|
                    0 <= i < h && (#[trigger] vars[i]).0 == k && before[k] == types[i];
                assert(vars[i].0 == k && m[k] == types[i]);
            }
        }
    }
}

/// A program that is finished is reported for its effects if it has any, and for nothing else.
pub proof fn law_unhandled_effects_are_reported(
    effects: (Seq<Ty>, Option<TypeVariableId>),
    location: Location,
    c: Cache,
)
    ensures
        ({
            let c1 = program_finished(effects, location, c);
            &&& effects.0.len() == 0 ==> c1 == c
            &&& effects.0.len() > 0 ==> is_reported(
                location,
                Report::UnhandledEffectsInMain(Ty::Effects(effects.0, effects.1)),
                c,
                c1,
            ) && c1.diagnostics.len() == c.diagnostics.len() + 1
            &&& c1.type_bindings == c.type_bindings
            &&& c1.definition_infos == c.definition_infos
        }),
{
    let c1 = program_finished(effects, location, c);
    if effects.0.len() > 0 {
        assert(c1.diagnostics[c.diagnostics.len() as int].location == location);
    }
}

/// A whole program is inferred at the level of top-level definitions, and what that comes to is
/// what the program has, one level below.
pub proof fn law_program_is_inferred<T: Inferable>(t: Tree, c: Cache)
    ensures
        match inferred::<T>(t, c.at_level(LetBindingLevel(INITIAL_LEVEL))) {
            None => program_inferred::<T>(t, c) is None,
            Some(o) => program_inferred::<T>(t, c) matches Some(r) && r.tree == o.tree && r.result
                == o.result && r.cache.current_level.0 + 1 == INITIAL_LEVEL && r.cache.type_bindings
                == o.cache.type_bindings && r.cache.diagnostics == o.cache.diagnostics,
        },
{
}

/// Whether the definition has a type that is not generic.
pub open spec fn has_monotype(def: Def) -> bool {
    def.typ matches Some(Scheme::Mono(_))
}

/// Whether each of the variables from some position on has a type of its own.
pub open spec fn have_types(from: int, found: Seq<Visit>, c: Cache) -> bool {
    forall|i: int|
        from <= i < found.len() && (#[trigger] found[i]) is Variable ==> (
        found[i]->Variable_1 matches Some(id) && id.0 < c.definition_infos.len() && has_monotype(
            c.definition_infos[id.0 as int],
        ))
}

/// Once the variables of a pattern of an impl were all bound, each has the type of a member. If the
/// trait has to be inferred first, that is because the member of the next variable has no type.
pub proof fn law_all_members_get_types(k: PatternBinding, types: Map<usize, Ty>, c: Cache)
    requires
        pattern_binding_step(k, types, c) is Some,
        0 <= k.next,
    ensures
        ({
            let (k1, types1, c1, todo) = pattern_binding_step(k, types, c)->0;
            &&& k1 == (PatternBinding { next: k1.next, ..k })
            &&& k.next <= k1.next
            &&& c1.definition_infos.len() == c.definition_infos.len()
            &&& forall|i: int|
                0 <= i < c.definition_infos.len() && has_monotype(#[trigger] c.definition_infos[i])
                    ==> has_monotype(c1.definition_infos[i])
            &&& match todo {
                BindingTodo::Done => have_types(k.next, k.found, c1),
                BindingTodo::InferTrait => k1.next < k.found.len() && trait_is_missing(
                    k.found[k1.next],
                    k.trait_id,
                    c1,
                ),
            }
        }),
    decreases k.found.len() - k.next,
{
    if k.next < k.found.len() && !trait_is_missing(k.found[k.next], k.trait_id, c) {
        let visit = k.found[k.next];
        let (types1, c1) = visit_bound(visit, k.trait_id, types, c)->0;
        let next = PatternBinding { next: k.next + 1, ..k };
        if visit is Variable {
            law_member_gets_the_type_of_the_trait(visit, k.trait_id, types, c);
        }
        law_all_members_get_types(next, types1, c1);
        let (k1, _, end, todo) = pattern_binding_step(next, types1, c1)->0;
        assert forall|i: int|
            0 <= i < c.definition_infos.len() && has_monotype(
                #[trigger] c.definition_infos[i],
            ) implies has_monotype(end.definition_infos[i]) by {
            let _ = c1.definition_infos[i];
        }
        if todo is Done {
            assert forall|i: int|
                k.next <= i < k.found.len() && (#[trigger] k.found[i]) is Variable implies (
            k.found[i]->Variable_1 matches Some(id) && id.0 < end.definition_infos.len()
                && has_monotype(end.definition_infos[id.0 as int])) by {
                if i == k.next {
                    let id = visit->Variable_1->0;
                    let _ = c1.definition_infos[id.0 as int];
                }
            }
        }
    }
}

} // verus!
