//! What every step of inference keeps: bound variables stay bound to the same types, levels only
//! fall, reports are only added, and the level and the call stack are what they were.

use crate::bindings::{bind_all, lower_levels, Solution};
use crate::cache::{lookup, Binding, Cache, Def, DefinitionInfoId, Issue, Location, Reason, Report};
use crate::occurs_laws::law_lowering_only_lowers;
use crate::resolve::MAX_DEPTH;
use crate::solve::{after_unify, fresh_unification};
use crate::types::{LetBindingLevel, Ty, TypeVariableId};
use crate::unify::State;
use crate::unify_laws::{is_proper, law_unify_keeps};
use vstd::prelude::*;

verus! {

/// Whether each variable that was bound is bound to the same type, and each other one is bound now
/// or has a level that is not higher than it was.
pub open spec fn stay_bound(before: Seq<Binding>, after: Seq<Binding>) -> bool {
    forall|i: int|
        0 <= i < before.len() ==> match before[i] {
            Binding::Bound(_) => #[trigger] after[i] == before[i],
            Binding::Unbound(level, kind) => match after[i] {
                Binding::Bound(_) => true,
                Binding::Unbound(now, kind2) => now.0 <= level.0 && kind2 == kind,
            },
        }
}

/// Whether a cache gained from an earlier one: it has all variables and definitions that there
/// were, what was bound is bound as it was, every report is still there, and all that inference
/// does not change is the same. Of more variables than there are ids nothing is said.
pub open spec fn gains(before: Cache, after: Cache) -> bool {
    &&& before.type_bindings.len() <= after.type_bindings.len()
    &&& after.type_bindings.len() <= usize::MAX ==> stay_bound(
        before.type_bindings,
        after.type_bindings,
    )
    &&& before.diagnostics.len() <= after.diagnostics.len()
    &&& forall|i: int|
        0 <= i < before.diagnostics.len() ==> #[trigger] after.diagnostics[i]
            == before.diagnostics[i]
    &&& before.next_constraint <= after.next_constraint
    &&& after.definition_infos.len() == before.definition_infos.len()
    &&& after.type_infos == before.type_infos
    &&& after.trait_infos == before.trait_infos
    &&& after.given == before.given
    &&& after.effect_args == before.effect_args
}

/// Whether a cache goes on from an earlier one: it gained from it, and the level and the call stack
/// are what they were.
pub open spec fn goes_on(before: Cache, after: Cache) -> bool {
    &&& gains(before, after)
    &&& after.current_level == before.current_level
    &&& after.call_stack == before.call_stack
}

/// What gains from a cache that gained from another gains from that one.
pub proof fn law_gains_further(a: Cache, b: Cache, c: Cache)
    requires
        gains(a, b),
        gains(b, c),
    ensures
        gains(a, c),
{
    if c.type_bindings.len() <= usize::MAX {
        assert forall|i: int| 0 <= i < a.type_bindings.len() implies match a.type_bindings[i] {
            Binding::Bound(_) => #[trigger] c.type_bindings[i] == a.type_bindings[i],
            Binding::Unbound(level, kind) => match c.type_bindings[i] {
                Binding::Bound(_) => true,
                Binding::Unbound(now, kind2) => now.0 <= level.0 && kind2 == kind,
            },
        } by {
            let _ = b.type_bindings[i];
        }
    }
    assert forall|i: int| 0 <= i < a.diagnostics.len() implies #[trigger] c.diagnostics[i]
        == a.diagnostics[i] by {
        assert(b.diagnostics[i] == a.diagnostics[i]);
    }
}

/// What goes on from a cache that goes on from another goes on from that one.
pub proof fn law_goes_on_further(a: Cache, b: Cache, c: Cache)
    requires
        goes_on(a, b),
        goes_on(b, c),
    ensures
        goes_on(a, c),
{
    law_gains_further(a, b, c);
}

/// A fresh variable changes nothing else.
pub proof fn lemma_fresh_goes_on(c: Cache, level: LetBindingLevel)
    ensures
        goes_on(c, c.fresh(level)),
{
}

/// A further issue changes nothing else.
pub proof fn lemma_issue_goes_on(c: Cache, issue: Issue)
    ensures
        goes_on(c, c.with_issue(issue)),
{
}

/// A report changes nothing else.
pub proof fn lemma_report_goes_on(c: Cache, location: Location, report: Report)
    ensures
        goes_on(c, c.report(location, report)),
{
}

/// What is known of a definition changes, and nothing else.
pub proof fn lemma_definition_goes_on(c: Cache, id: DefinitionInfoId, def: Def)
    requires
        id.0 < c.definition_infos.len(),
    ensures
        goes_on(c, c.with_definition(id, def)),
{
}

/// Binding a variable that is unbound changes nothing else.
pub proof fn lemma_bind_goes_on(c: Cache, id: TypeVariableId, t: Ty)
    requires
        id.0 < c.type_bindings.len(),
        c.type_bindings[id.0 as int] is Unbound,
    ensures
        goes_on(c, c.bind(id, t)),
{
}

/// Committing a solution changes nothing but what it binds and lowers.
pub proof fn lemma_perform_goes_on(c: Cache, solution: Solution)
    requires
        solution.known_to(c),
        is_proper(State { solution, cache: c }),
    ensures
        goes_on(c, c.perform(solution)),
{
    let vars = c.type_bindings;
    let bound = bind_all(vars, solution.types);
    assert(bound.len() == vars.len());
    assert forall|i: int| 0 <= i < solution.levels.len() implies (
    #[trigger] solution.levels[i]).0.0 < bound.len() by {}
    law_lowering_only_lowers(bound, solution.levels);
    let end = lower_levels(bound, solution.levels);
    if vars.len() <= usize::MAX {
        assert forall|i: int| 0 <= i < vars.len() implies match vars[i] {
            Binding::Bound(_) => #[trigger] end[i] == vars[i],
            Binding::Unbound(level, kind) => match end[i] {
                Binding::Bound(_) => true,
                Binding::Unbound(now, kind2) => now.0 <= level.0 && kind2 == kind,
            },
        } by {
            let k = i as usize;
            assert(bound[i] == if solution.types.contains_key(k) {
                Binding::Bound(solution.types[k])
            } else {
                vars[i]
            });
            if solution.types.contains_key(k) {
                let s = State { solution, cache: c };
                assert(s.solution.types.contains_key(k));
                assert(lookup(s.cache.type_bindings, TypeVariableId(k)) == Some(vars[i]));
            }
        }
        assert(stay_bound(vars, end));
    }
}

/// Trying to unify two types leaves what there was, and the solution can be committed.
pub proof fn law_unification_goes_on(actual: Ty, expected: Ty, c: Cache)
    ensures
        fresh_unification(actual, expected, c) matches Some(step) ==> goes_on(c, step.state.cache)
            && step.state.solution.known_to(step.state.cache) && is_proper(step.state) && goes_on(
            c,
            step.state.cache.perform(step.state.solution),
        ),
{
    let s0 = State { solution: Solution::empty(), cache: c };
    law_unify_keeps(MAX_DEPTH as nat, actual, expected, s0);
    assert(is_proper(s0));
    if let Some(step) = fresh_unification(actual, expected, c) {
        let s = step.state;
        lemma_perform_goes_on(s.cache, s.solution);
        law_goes_on_further(c, s.cache, s.cache.perform(s.solution));
    }
}

/// Unifying two types in the cache, or reporting that they do not unify, keeps what there was.
pub proof fn law_unify_goes_on(
    actual: Ty,
    expected: Ty,
    location: Location,
    reason: Reason,
    c: Cache,
)
    ensures
        after_unify(actual, expected, location, reason, c) matches Some(c1) ==> goes_on(c, c1),
{
    law_unification_goes_on(actual, expected, c);
    if let Some(step) = fresh_unification(actual, expected, c) {
        if !step.ok {
            let report = Report::TypeError(reason, actual, expected);
            lemma_report_goes_on(step.state.cache, location, report);
            law_goes_on_further(
                c,
                step.state.cache,
                step.state.cache.report(location, report),
            );
        }
    }
}

} // verus!
