//! What handlers are for: the effects that the patterns have are handled, so that neither the
//! handler nor `resume` has them; all other effects stay.

use crate::accord::{accord, law_accord_stays, lemma_perform_length, lemma_stay_grow};
use crate::agreement::{committed, grows, hop, lemma_commit_hops};
use crate::branching::{
    effects_added, effects_handled_by, handle_begun, handle_finished, infer_handlers,
    results_joined, Handlers, Resumed,
};
use crate::cache::{
    lookup, Binding, Cache, Constraint, Def, DefinitionInfoId, Location, Reason, Scheme,
};
use crate::definitions::continuation_ty;
use crate::effect_flow::{
    any_of, bound_row, flows, found, is_effect, law_flow_stays, law_joined_rows_flow,
    lemma_flattened, lemma_later, lemma_unfold, only_open, open_in, row_ends, row_has, type_row,
};
use crate::effect_laws::{law_handled_are_gone, law_missing_from};
use crate::effect_sets::{combined, flat, lemma_flat_end, missing_from, EffectRow};
use crate::effects::{effects_without, flatten};
use crate::functions::function_ty;
use crate::inference_laws::{
    law_combining_goes_on, lemma_effects_added, lemma_handlers, lemma_inferred, lemma_next_handler,
    lemma_results, lemma_results_joined, only_goes_on,
};
use crate::progress::{
    goes_on, law_goes_on_further, law_unify_goes_on, lemma_definition_goes_on, lemma_fresh_goes_on,
};
use crate::resolve::{follow, MAX_DEPTH};
use crate::results::{tuple_ty, Typing};
use crate::rule_laws::{
    carries, inferred_between, lemma_carries_further, lemma_carries_itself, lemma_carries_still,
    lemma_joined_carries, lemma_noted, lemma_unified, noted, reports_nothing,
};
use crate::solve::{after_unify, fresh_unification};
use crate::tree::{inferred, Expression, Inferable, Outcome, Tree};
use crate::types::{Ty, TypeVariableId};
use crate::unify::{
    fresh_row, succeeded, unified, unify_common, unify_effects, unify_types, unify_variable, State,
};
use crate::unify_laws::{is_proper, law_unify_keeps};
use vstd::prelude::*;

verus! {

/// Whether the branch was inferred: its pattern, and its body where `resume` was a function from
/// what the pattern gives to the result of the whole, with the environment and the effects that
/// all branches share.
pub open spec fn branch_inferred<A: Inferable>(
    pattern: Tree,
    body: Tree,
    resume: DefinitionInfoId,
    pattern1: Tree,
    body1: Tree,
    shared: Resumed,
    effects: EffectRow,
    traits: Seq<Constraint>,
    result: Typing,
    before: Cache,
    after: Cache,
) -> bool {
    exists|c1: Cache, o1: Outcome, c2: Cache, o2: Outcome|
        {
            &&& #[trigger] inferred_between::<A>(pattern, c1, o1, pattern1, before, c2)
            &&& #[trigger] inferred_between::<A>(body, c2, o2, body1, before, after)
            &&& resume.0 < c2.definition_infos.len()
            &&& c2.definition_infos[resume.0 as int].typ == Some(
                Scheme::Mono(
                    function_ty(
                        seq![o1.result.typ],
                        shared.typ,
                        shared.environment,
                        shared.effects,
                    ),
                ),
            )
            &&& o1.result.effects == effects
            &&& o1.result.traits == traits
            &&& o2.result == result
        }
}

/// Whether the branches were inferred, and where nothing was reported, are of one type.
pub open spec fn handlers_well_typed<A: Inferable>(
    n: nat,
    patterns: Seq<Tree>,
    bodies: Seq<Tree>,
    resumes: Seq<DefinitionInfoId>,
    shared: Resumed,
    before: Cache,
    h: Handlers,
) -> bool {
    &&& h.patterns.len() == n
    &&& h.bodies.len() == n
    &&& h.effects.len() == n
    &&& h.traits.len() == n
    &&& h.results.len() == n
    &&& forall|i: int|
        0 <= i < n ==> branch_inferred::<A>(
            patterns[i],
            bodies[i],
            resumes[i],
            #[trigger] h.patterns[i],
            h.bodies[i],
            shared,
            h.effects[i],
            h.traits[i],
            h.results[i],
            before,
            h.cache,
        )
    &&& reports_nothing(before, h.cache) ==> forall|i: int|
        0 <= i < n ==> accord(noted(#[trigger] h.bodies[i]), shared.typ, h.cache)
}

proof fn lemma_branch_still<A: Inferable>(
    pattern: Tree,
    body: Tree,
    resume: DefinitionInfoId,
    pattern1: Tree,
    body1: Tree,
    shared: Resumed,
    effects: EffectRow,
    traits: Seq<Constraint>,
    result: Typing,
    before: Cache,
    c: Cache,
    end: Cache,
)
    requires
        branch_inferred::<A>(
            pattern,
            body,
            resume,
            pattern1,
            body1,
            shared,
            effects,
            traits,
            result,
            before,
            c,
        ),
        goes_on(c, end),
    ensures
        branch_inferred::<A>(
            pattern,
            body,
            resume,
            pattern1,
            body1,
            shared,
            effects,
            traits,
            result,
            before,
            end,
        ),
{
    let (c1, o1, c2, o2) = choose|c1: Cache, o1: Outcome, c2: Cache, o2: Outcome|
        {
            &&& #[trigger] inferred_between::<A>(pattern, c1, o1, pattern1, before, c2)
            &&& #[trigger] inferred_between::<A>(body, c2, o2, body1, before, c)
            &&& resume.0 < c2.definition_infos.len()
            &&& c2.definition_infos[resume.0 as int].typ == Some(
                Scheme::Mono(
                    function_ty(
                        seq![o1.result.typ],
                        shared.typ,
                        shared.environment,
                        shared.effects,
                    ),
                ),
            )
            &&& o1.result.effects == effects
            &&& o1.result.traits == traits
            &&& o2.result == result
        };
    law_goes_on_further(o2.cache, c, end);
    assert(inferred_between::<A>(pattern, c1, o1, pattern1, before, c2));
    assert(inferred_between::<A>(body, c2, o2, body1, before, end));
}

proof fn lemma_handlers_well_typed<A: Inferable>(
    n: nat,
    patterns: Seq<Tree>,
    bodies: Seq<Tree>,
    resumes: Seq<DefinitionInfoId>,
    shared: Resumed,
    before: Cache,
    c: Cache,
)
    requires
        only_goes_on::<A>(),
        n <= patterns.len(),
        n <= bodies.len(),
        n <= resumes.len(),
        goes_on(before, c),
        infer_handlers::<A>(n, patterns, bodies, resumes, shared, c) matches Some(h)
            && h.cache.type_bindings.len() <= usize::MAX,
    ensures
        handlers_well_typed::<A>(
            n,
            patterns,
            bodies,
            resumes,
            shared,
            before,
            infer_handlers::<A>(n, patterns, bodies, resumes, shared, c)->0,
        ),
        goes_on(before, infer_handlers::<A>(n, patterns, bodies, resumes, shared, c)->0.cache),
    decreases n,
{
    let end = infer_handlers::<A>(n, patterns, bodies, resumes, shared, c)->0;
    lemma_handlers::<A>(n, patterns, bodies, resumes, shared, c);
    law_goes_on_further(before, c, end.cache);
    if n > 0 {
        let k = (n - 1) as nat;
        let h = infer_handlers::<A>(k, patterns, bodies, resumes, shared, c)->0;
        let (pattern, body, resume) = (patterns[n - 1], bodies[n - 1], resumes[n - 1]);
        lemma_next_handler::<A>(h, pattern, body, resume, shared);
        lemma_handlers_well_typed::<A>(k, patterns, bodies, resumes, shared, before, c);
        let o1 = inferred::<A>(pattern, h.cache)->0;
        lemma_inferred::<A>(pattern, h.cache);
        let resume_type = function_ty(
            seq![o1.result.typ],
            shared.typ,
            shared.environment,
            shared.effects,
        );
        let def = Def {
            typ: Some(Scheme::Mono(resume_type)),
            ..o1.cache.definition_infos[resume.0 as int]
        };
        let c1 = o1.cache.with_definition(resume, def);
        lemma_definition_goes_on(o1.cache, resume, def);
        lemma_inferred::<A>(body, c1);
        let o2 = inferred::<A>(body, c1)->0;
        lemma_noted(A::rule(body, c1)->0.tree, o2.result.typ);
        let at = o2.tree.location_of();
        let reason = Reason::HandleBranchMismatch;
        law_unify_goes_on(o2.result.typ, shared.typ, at, reason, o2.cache);
        law_goes_on_further(before, h.cache, o1.cache);
        law_goes_on_further(before, o1.cache, c1);
        law_goes_on_further(before, c1, o2.cache);
        assert(inferred_between::<A>(pattern, h.cache, o1, o1.tree, before, c1));
        assert(inferred_between::<A>(body, c1, o2, o2.tree, before, end.cache));
        assert forall|i: int| 0 <= i < n implies branch_inferred::<A>(
            patterns[i],
            bodies[i],
            resumes[i],
            #[trigger] end.patterns[i],
            end.bodies[i],
            shared,
            end.effects[i],
            end.traits[i],
            end.results[i],
            before,
            end.cache,
        ) by {
            if i < k {
                assert(h.patterns[i] == end.patterns[i]);
                lemma_branch_still::<A>(
                    patterns[i],
                    bodies[i],
                    resumes[i],
                    h.patterns[i],
                    h.bodies[i],
                    shared,
                    h.effects[i],
                    h.traits[i],
                    h.results[i],
                    before,
                    h.cache,
                    end.cache,
                );
            }
        }
        if reports_nothing(before, end.cache) {
            assert(goes_on(end.cache, end.cache));
            lemma_unified(o2.result.typ, shared.typ, at, reason, before, o2.cache, end.cache);
            assert forall|i: int| 0 <= i < n implies accord(
                noted(#[trigger] end.bodies[i]),
                shared.typ,
                end.cache,
            ) by {
                if i < k {
                    assert(h.bodies[i] == end.bodies[i]);
                    law_accord_stays(
                        noted(h.bodies[i]),
                        shared.typ,
                        h.cache,
                        end.cache,
                    );
                }
            }
        }
    }
}

/// Whether the type is a variable that was made later.
pub open spec fn is_later(t: Ty, before: Cache) -> bool {
    t matches Ty::Variable(v) && v.0 >= before.type_bindings.len()
}

/// Where a handler was begun, the handled expression was inferred, and each branch: its pattern,
/// and its body where its `resume` is a function from what the pattern gives to the result, of an
/// environment and with effects that are not known yet. Where nothing was reported, the bodies are
/// of the type of the handled expression.
pub proof fn law_handler_is_well_typed<A: Expression>(t: Tree, c: Cache)
    requires
        only_goes_on::<A>(),
        t is Handle,
        t->Handle_patterns.len() == t->Handle_branches.len() == t->resumes.len(),
        handle_begun::<A>(t, c) matches Some((_, _, _, h)) && h.cache.type_bindings.len()
            <= usize::MAX,
    ensures
        ({
            let (t1, result, shared, h) = handle_begun::<A>(t, c)->0;
            &&& t1 is Handle
            &&& exists|o: Outcome| #[trigger]
                inferred_between::<A>(
                    *t->Handle_expression,
                    c,
                    o,
                    *t1->Handle_expression,
                    c,
                    h.cache,
                ) && o.result == result
            &&& shared.typ == result.typ
            &&& is_later(shared.environment, c)
            &&& is_later(shared.effects, c)
            &&& shared.environment != shared.effects
            &&& result.typ == noted(*t1->Handle_expression)
            &&& t1->Handle_patterns == h.patterns
            &&& t1->Handle_branches == h.bodies
            &&& handlers_well_typed::<A>(
                t->resumes.len(),
                t->Handle_patterns,
                t->Handle_branches,
                t->resumes,
                shared,
                c,
                h,
            )
        }),
{
    let (t1, result, shared, h) = handle_begun::<A>(t, c)->0;
    let (patterns, bodies, resumes) = (t->Handle_patterns, t->Handle_branches, t->resumes);
    let n = resumes.len();
    let expression = *t->Handle_expression;
    lemma_inferred::<A>(expression, c);
    let o = inferred::<A>(expression, c)->0;
    lemma_noted(A::rule(expression, c)->0.tree, o.result.typ);
    let level = o.cache.current_level;
    let c1 = o.cache.fresh(level);
    let c2 = c1.fresh(level);
    lemma_fresh_goes_on(o.cache, level);
    lemma_fresh_goes_on(c1, level);
    law_goes_on_further(c, o.cache, c1);
    law_goes_on_further(c, c1, c2);
    law_goes_on_further(o.cache, c1, c2);
    lemma_handlers::<A>(n, patterns, bodies, resumes, shared, c2);
    law_goes_on_further(o.cache, c2, h.cache);
    lemma_handlers_well_typed::<A>(n, patterns, bodies, resumes, shared, c, c2);
    assert(goes_on(c, c));
    assert(inferred_between::<A>(expression, c, o, *t1->Handle_expression, c, h.cache));
    assert(h.patterns + patterns.skip(n as int) =~= h.patterns);
    assert(h.bodies + bodies.skip(n as int) =~= h.bodies);
}

/// Whether the cache was found later than the other, and the bindings of the other are among its
/// own.
proof fn lemma_grows_on(c: Cache, end: Cache)
    requires
        goes_on(c, end),
        end.type_bindings.len() <= usize::MAX,
    ensures
        grows(committed(c), committed(end)),
{
    lemma_stay_grow(c, end);
}

/// Adding the effects of rows lets all of them flow into the row.
proof fn lemma_added_flow(
    n: nat,
    rows: Seq<EffectRow>,
    row: EffectRow,
    wanted: spec_fn(Ty) -> bool,
    c: Cache,
)
    requires
        n <= rows.len(),
        effects_added(n, rows, row, c) matches Some((_, c1)) && c1.type_bindings.len()
            <= usize::MAX,
    ensures
        ({
            let (all, c1) = effects_added(n, rows, row, c)->0;
            &&& flows(row, all, wanted, committed(c1))
            &&& forall|i: int|
                0 <= i < n ==> flows(#[trigger] rows[i], all, wanted, committed(c1))
        }),
    decreases n,
{
    if n > 0 {
        let k = (n - 1) as nat;
        let (row1, c1) = effects_added(k, rows, row, c)->0;
        let (all, c2) = effects_added(n, rows, row, c)->0;
        law_combining_goes_on(row1, rows[n - 1], c1);
        lemma_added_flow(k, rows, row, wanted, c);
        law_joined_rows_flow(row1, rows[n - 1], wanted, c1);
        lemma_grows_on(c1, c2);
        law_flow_stays(row, row1, wanted, committed(c1), committed(c2));
        assert forall|i: int| 0 <= i < n implies flows(
            #[trigger] rows[i],
            all,
            wanted,
            committed(c2),
        ) by {
            if i < k {
                law_flow_stays(rows[i], row1, wanted, committed(c1), committed(c2));
            }
        }
    }
}

/// Whether the row holds the effect.
pub open spec fn holds(row: EffectRow, e: Ty, c: Cache) -> bool {
    row_has(row, is_effect(e), committed(c))
}

/// A row that can be followed to its end holds exactly what is found on the way.
proof fn lemma_holds(row: EffectRow, e: Ty, c: Cache)
    requires
        flat(row, c) is Some,
    ensures
        holds(row, e, c) <==> (flat(row, c)->0).0.contains(e),
{
    let xs = (flat(row, c)->0).0;
    lemma_flattened(MAX_DEPTH as nat, row.0, row.1, is_effect(e), committed(c));
    assert(row == (row.0, row.1));
    if xs.contains(e) {
        let i = choose|i: int| 0 <= i < xs.len() && xs[i] == e;
        assert(is_effect(e)(xs[i]));
    }
    if any_of(xs, is_effect(e)) {
        let i = choose|i: int| 0 <= i < xs.len() && is_effect(e)(#[trigger] xs[i]);
        assert(xs[i] == e);
    }
}

/// A row holds what stands in it.
proof fn lemma_holds_own(row: EffectRow, e: Ty, c: Cache)
    requires
        row.0.contains(e),
    ensures
        holds(row, e, c),
{
    let i = choose|i: int| 0 <= i < row.0.len() && row.0[i] == e;
    assert(is_effect(e)(row.0[i]));
    assert(any_of(row.0, is_effect(e)));
    assert(found(0, row, is_effect(e), committed(c)));
}

/// What handling takes away and leaves, and what is handled by it.
proof fn lemma_handled(
    n: nat,
    traits: Seq<Seq<Constraint>>,
    rows: Seq<EffectRow>,
    result: Typing,
    e: Ty,
    c: Cache,
)
    requires
        n <= rows.len(),
        n <= traits.len(),
        effects_handled_by(n, traits, rows, result, c) is Some,
    ensures
        ({
            let (rest, handled) = effects_handled_by(n, traits, rows, result, c)->0;
            &&& rest.typ == result.typ
            &&& forall|i: int|
                0 <= i < result.traits.len() ==> rest.traits.contains(#[trigger] result.traits[i])
            &&& forall|i: int, k: int|
                0 <= i < n && 0 <= k < traits[i].len() ==> rest.traits.contains(
                    #[trigger] traits[i][k],
                )
            &&& holds(rest.effects, e, c) <==> holds(result.effects, e, c) && (forall|i: int|
                0 <= i < n ==> !holds(#[trigger] rows[i], e, c))
            &&& handled.contains(e) ==> exists|i: int|
                0 <= i < n && holds(#[trigger] rows[i], e, c)
            &&& holds(result.effects, e, c) && (exists|i: int|
                0 <= i < n && holds(#[trigger] rows[i], e, c)) ==> handled.contains(e)
            &&& n > 0 ==> flat(rest.effects, c) is Some
            &&& n > 0 && holds(rest.effects, e, c) ==> rest.effects.0.contains(e)
            &&& forall|v: TypeVariableId| #[trigger]
                row_ends(rest.effects, v, committed(c)) <==> row_ends(
                    result.effects,
                    v,
                    committed(c),
                )
        }),
    decreases n,
{
    if n > 0 {
        let k = (n - 1) as nat;
        let (rest1, handled1) = effects_handled_by(k, traits, rows, result, c)->0;
        let (rest, handled) = effects_handled_by(n, traits, rows, result, c)->0;
        lemma_handled(k, traits, rows, result, e, c);
        law_handled_are_gone(rest1.effects, rows[n - 1], handled1, c, e);
        lemma_holds(rest1.effects, e, c);
        lemma_holds(rows[n - 1], e, c);
        let (xs, end) = flat(rest1.effects, c)->0;
        lemma_flat_end(rest1.effects, c);
        let s = committed(c);
        assert(rest.effects.1 == end);
        lemma_unfold(rest.effects, is_effect(e), s);
        if let Some(w) = end {
            assert(bound_row(w, s) is None);
        }
        assert(rest.effects.0.contains(e) <==> any_of(rest.effects.0, is_effect(e))) by {
            if rest.effects.0.contains(e) {
                let i = choose|i: int| 0 <= i < rest.effects.0.len() && rest.effects.0[i] == e;
                assert(is_effect(e)(rest.effects.0[i]));
            }
            if any_of(rest.effects.0, is_effect(e)) {
                let i = choose|i: int|
                    0 <= i < rest.effects.0.len() && is_effect(e)(#[trigger] rest.effects.0[i]);
                assert(rest.effects.0[i] == e);
            }
        }
        lemma_flattened(
            MAX_DEPTH as nat,
            rest1.effects.0,
            rest1.effects.1,
            is_effect(e),
            s,
        );
        assert(rest1.effects == (rest1.effects.0, rest1.effects.1));
        assert(holds(rest.effects, e, c) <==> rest.effects.0.contains(e));
        assert forall|i: int|
            0 <= i < result.traits.len() implies rest.traits.contains(
            #[trigger] result.traits[i],
        ) by {
            assert(rest1.traits.contains(result.traits[i]));
            let j = choose|j: int| 0 <= j < rest1.traits.len() && rest1.traits[j]
                == result.traits[i];
            assert(rest.traits[j] == result.traits[i]);
        }
        assert forall|i: int, m: int|
            0 <= i < n && 0 <= m < traits[i].len() implies rest.traits.contains(
            #[trigger] traits[i][m],
        ) by {
            if i < k {
                assert(rest1.traits.contains(traits[i][m]));
                let j = choose|j: int| 0 <= j < rest1.traits.len() && rest1.traits[j]
                    == traits[i][m];
                assert(rest.traits[j] == traits[i][m]);
            } else {
                assert(rest.traits[rest1.traits.len() + m] == traits[i][m]);
            }
        }
        if exists|i: int| 0 <= i < k && holds(#[trigger] rows[i], e, c) {
            let i = choose|i: int| 0 <= i < k && holds(#[trigger] rows[i], e, c);
            assert(holds(rows[i], e, c));
        }
        if holds(rows[n - 1], e, c) {
            assert(exists|i: int| 0 <= i < n && holds(#[trigger] rows[i], e, c));
        }
        assert(flat(rest.effects, c) is Some);
        assert forall|v: TypeVariableId| #[trigger]
            row_ends(rest.effects, v, s) <==> row_ends(result.effects, v, s) by {
            assert(row_ends(rest1.effects, v, s) <==> row_ends(result.effects, v, s));
        }
        assert(holds(rest.effects, e, c) <==> holds(rest1.effects, e, c) && !holds(
            rows[n - 1],
            e,
            c,
        ));
        assert(holds(rest.effects, e, c) <==> holds(result.effects, e, c) && (forall|i: int|
            0 <= i < n ==> !holds(#[trigger] rows[i], e, c)));
        assert(handled.contains(e) ==> exists|i: int|
            0 <= i < n && holds(#[trigger] rows[i], e, c));
        assert(holds(result.effects, e, c) && (exists|i: int|
            0 <= i < n && holds(#[trigger] rows[i], e, c)) ==> handled.contains(e));
    } else {
        assert forall|i: int|
            0 <= i < result.traits.len() implies result.traits.contains(
            #[trigger] result.traits[i],
        ) by {}
    }
}

/// Joining results carries all of them.
proof fn lemma_joined_all(n: nat, others: Seq<Typing>, result: Typing, c: Cache)
    requires
        n <= others.len(),
        results_joined(n, others, result, c) matches Some((_, c1)) && c1.type_bindings.len()
            <= usize::MAX,
    ensures
        ({
            let (all, c1) = results_joined(n, others, result, c)->0;
            &&& all.typ == result.typ
            &&& carries(result, all, c1)
            &&& forall|i: int| 0 <= i < n ==> carries(#[trigger] others[i], all, c1)
        }),
    decreases n,
{
    if n > 0 {
        let k = (n - 1) as nat;
        let (all1, c1) = results_joined(k, others, result, c)->0;
        let (all, c2) = results_joined(n, others, result, c)->0;
        lemma_results(all1, others[n - 1], c1);
        lemma_joined_all(k, others, result, c);
        lemma_joined_carries(all1, others[n - 1], c1);
        lemma_carries_still(result, all1, c1, c2);
        lemma_carries_further(result, all1, all, c2);
        assert forall|i: int| 0 <= i < n implies carries(#[trigger] others[i], all, c2) by {
            if i < k {
                lemma_carries_still(others[i], all1, c1, c2);
                lemma_carries_further(others[i], all1, all, c2);
            }
        }
    } else {
        lemma_carries_itself(result, c);
    }
}

/// A handler has the type of the handled expression, and the constraints of that, of all patterns
/// and of all bodies. It has the effects of all bodies, and those of the handled expression that no
/// pattern has. The effects of the patterns are handled, and no others.
pub proof fn law_handler_keeps_the_rest(
    result: Typing,
    environment: Ty,
    resume_effects: Ty,
    h: Handlers,
    free: Seq<Ty>,
    location: Location,
    c: Cache,
    e: Ty,
)
    requires
        h.traits.len() == h.effects.len(),
        handle_finished(result, environment, resume_effects, h, free, location, c) matches Some(
            (_, _, end),
        ) && end.type_bindings.len() <= usize::MAX,
    ensures
        ({
            let (r, handled, end) = handle_finished(
                result,
                environment,
                resume_effects,
                h,
                free,
                location,
                c,
            )->0;
            &&& r.typ == result.typ
            &&& forall|i: int|
                0 <= i < result.traits.len() ==> r.traits.contains(#[trigger] result.traits[i])
            &&& forall|i: int, k: int|
                0 <= i < h.traits.len() && 0 <= k < h.traits[i].len() ==> r.traits.contains(
                    #[trigger] h.traits[i][k],
                )
            &&& forall|i: int|
                0 <= i < h.results.len() ==> carries(#[trigger] h.results[i], r, end)
            &&& holds(result.effects, e, c) && (forall|i: int|
                0 <= i < h.effects.len() ==> !holds(#[trigger] h.effects[i], e, end)) ==> holds(
                r.effects,
                e,
                end,
            )
            &&& (exists|i: int| 0 <= i < h.effects.len() && holds(#[trigger] h.effects[i], e, c))
                ==> handled.contains(e)
            &&& handled.contains(e) ==> exists|i: int|
                0 <= i < h.effects.len() && holds(#[trigger] h.effects[i], e, end)
            &&& reports_nothing(c, end) ==> accord(
                environment,
                tuple_ty(seq![continuation_ty()] + free),
                end,
            )
        }),
{
    let (r, handled, end) = handle_finished(
        result,
        environment,
        resume_effects,
        h,
        free,
        location,
        c,
    )->0;
    let n = h.effects.len();
    let wanted = is_effect(e);
    let actual = tuple_ty(seq![continuation_ty()] + free);
    let reason = Reason::ResumeEnvironmentMismatch;
    law_unify_goes_on(environment, actual, location, reason, c);
    let c1 = after_unify(environment, actual, location, reason, c)->0;
    lemma_effects_added(n, h.effects, result.effects, c1);
    let (row, c2) = effects_added(n, h.effects, result.effects, c1)->0;
    let all = Typing { effects: row, ..result };
    let (rest, _) = effects_handled_by(n, h.traits, h.effects, all, c2)->0;
    let left = Ty::Effects(rest.effects.0, rest.effects.1);
    let reason2 = Reason::ResumeEffectsMismatch;
    law_unify_goes_on(resume_effects, left, location, reason2, c2);
    let c3 = after_unify(resume_effects, left, location, reason2, c2)->0;
    lemma_results_joined(h.results.len(), h.results, rest, c3);
    law_goes_on_further(c, c1, c2);
    law_goes_on_further(c2, c3, end);
    law_goes_on_further(c1, c2, end);
    lemma_grows_on(c, c2);
    lemma_grows_on(c2, end);
    lemma_added_flow(n, h.effects, result.effects, wanted, c1);
    lemma_handled(n, h.traits, h.effects, all, e, c2);
    lemma_joined_all(h.results.len(), h.results, rest, c3);
    assert forall|i: int|
        0 <= i < result.traits.len() implies r.traits.contains(#[trigger] result.traits[i]) by {
        assert(all.traits[i] == result.traits[i]);
        lemma_still_there(rest, r, result.traits[i], end);
    }
    assert forall|i: int, k: int|
        0 <= i < h.traits.len() && 0 <= k < h.traits[i].len() implies r.traits.contains(
        #[trigger] h.traits[i][k],
    ) by {
        assert(rest.traits.contains(h.traits[i][k]));
        lemma_still_there(rest, r, h.traits[i][k], end);
    }
    assert forall|i: int| 0 <= i < n implies (holds(#[trigger] h.effects[i], e, c) ==> holds(
        h.effects[i],
        e,
        c2,
    )) && (holds(h.effects[i], e, c2) ==> holds(h.effects[i], e, end)) by {
        lemma_later(h.effects[i], wanted, committed(c), committed(c2));
        lemma_later(h.effects[i], wanted, committed(c2), committed(end));
    }
    lemma_later(result.effects, wanted, committed(c), committed(c2));
    if holds(result.effects, e, c) && (forall|i: int|
        0 <= i < n ==> !holds(#[trigger] h.effects[i], e, end)) {
        assert(holds(row, e, c2));
        assert(holds(rest.effects, e, c2));
        lemma_later(rest.effects, wanted, committed(c2), committed(end));
        assert(flows(rest.effects, r.effects, wanted, committed(end)));
    }
    if exists|i: int| 0 <= i < n && holds(#[trigger] h.effects[i], e, c) {
        let i = choose|i: int| 0 <= i < n && holds(#[trigger] h.effects[i], e, c);
        assert(holds(h.effects[i], e, c2));
        assert(flows(h.effects[i], row, wanted, committed(c2)));
        assert(holds(row, e, c2));
    }
    if handled.contains(e) {
        let i = choose|i: int| 0 <= i < n && holds(#[trigger] h.effects[i], e, c2);
        assert(holds(h.effects[i], e, end));
    }
    if reports_nothing(c, end) {
        assert(goes_on(c, c));
        lemma_unified(environment, actual, location, reason, c, c, end);
    }
}

proof fn lemma_still_there(a: Typing, b: Typing, x: Constraint, c: Cache)
    requires
        carries(a, b, c),
        a.traits.contains(x),
    ensures
        b.traits.contains(x),
{
    let i = choose|i: int| 0 <= i < a.traits.len() && a.traits[i] == x;
    assert(b.traits.contains(a.traits[i]));
}

/// Whether each variable that is bound in the one state only is bound to what does not hold the
/// effect.
spec fn binds_without(e: Ty, s: State, r: State) -> bool {
    forall|v: TypeVariableId|
        ((#[trigger] r.binding_of(v)) matches Some(Binding::Bound(_))) && !(s.binding_of(
            v,
        ) matches Some(Binding::Bound(_))) ==> !row_has(
            type_row(r.binding_of(v)->0->Bound_0),
            is_effect(e),
            r,
        )
}

/// A row that does not hold an effect gets it only where a variable is bound to what holds it.
proof fn lemma_still_without(row: EffectRow, e: Ty, s: State, r: State)
    requires
        grows(s, r),
        binds_without(e, s, r),
        !row_has(row, is_effect(e), s),
    ensures
        !row_has(row, is_effect(e), r),
{
    lemma_later(row, is_effect(e), s, r);
    if row_has(row, is_effect(e), r) {
        let v = choose|v: TypeVariableId| #[trigger]
            row_ends(row, v, s) && row_has(only_open(v), is_effect(e), r);
        lemma_unfold(only_open(v), is_effect(e), r);
        assert(bound_row(v, r) is Some);
        lemma_end_is_unbound(row, v, s);
    }
}

/// A row is open in variables only that are not bound.
proof fn lemma_end_is_unbound(row: EffectRow, v: TypeVariableId, s: State)
    requires
        row_ends(row, v, s),
    ensures
        !(s.binding_of(v) matches Some(Binding::Bound(_))),
{
    let n = choose|n: nat| open_in(n, row, v, s);
    lemma_open_is_unbound(n, row, v, s);
}

proof fn lemma_open_is_unbound(n: nat, row: EffectRow, v: TypeVariableId, s: State)
    requires
        open_in(n, row, v, s),
    ensures
        !(s.binding_of(v) matches Some(Binding::Bound(_))),
    decreases n,
{
    let w = row.1->0;
    if let Some(next) = bound_row(w, s) {
        lemma_open_is_unbound((n - 1) as nat, next, v, s);
    }
}

/// Joining rows that do not hold an effect brings it nowhere.
proof fn lemma_joined_without(a: EffectRow, b: EffectRow, e: Ty, c: Cache)
    requires
        combined(a, b, c) matches Some((_, c1)) && c1.type_bindings.len() <= usize::MAX,
        !holds(a, e, c),
        !holds(b, e, c),
    ensures
        ({
            let (row, c1) = combined(a, b, c)->0;
            &&& !holds(row, e, c1)
            &&& grows(committed(c), committed(c1))
            &&& binds_without(e, committed(c), committed(c1))
        }),
{
    let (row, c1) = combined(a, b, c)->0;
    let s = committed(c);
    let r = committed(c1);
    law_joined_rows_flow(a, b, is_effect(e), c);
    law_combining_goes_on(a, b, c);
    lemma_grows_on(c, c1);
    lemma_holds(a, e, c);
    lemma_holds(b, e, c);
    lemma_flat_end(a, c);
    lemma_flat_end(b, c);
    let (xs, end1) = flat(a, c)->0;
    let (ys, end2) = flat(b, c)->0;
    if let (Some(x), Some(y)) = (end1, end2) {
        if x != y {
            let z = c.next_id();
            let only1 = missing_from(xs, ys);
            let only2 = missing_from(ys, xs);
            assert(bound_row(z, r) is None);
            lemma_without_row(only1, Some(z), e, xs, ys, r);
            lemma_without_row(only2, Some(z), e, ys, xs, r);
            assert forall|v: TypeVariableId|
                ((#[trigger] r.binding_of(v)) matches Some(Binding::Bound(_))) && !(s.binding_of(
                    v,
                ) matches Some(Binding::Bound(_))) implies !row_has(
                type_row(r.binding_of(v)->0->Bound_0),
                is_effect(e),
                r,
            ) by {
                assert(v == x || v == y);
            }
        }
    }
}

proof fn lemma_without_row(
    only: Seq<Ty>,
    end: Option<TypeVariableId>,
    e: Ty,
    xs: Seq<Ty>,
    ys: Seq<Ty>,
    r: State,
)
    requires
        only == missing_from(xs, ys),
        !xs.contains(e),
        end matches Some(z) ==> bound_row(z, r) is None,
    ensures
        !row_has((only, end), is_effect(e), r),
{
    law_missing_from(xs, ys, e);
    lemma_unfold((only, end), is_effect(e), r);
    if any_of(only, is_effect(e)) {
        let i = choose|i: int| 0 <= i < only.len() && is_effect(e)(#[trigger] only[i]);
        assert(only[i] == e);
        assert(only.contains(e));
    }
}

proof fn lemma_all_joined_without(
    n: nat,
    others: Seq<Typing>,
    result: Typing,
    row: EffectRow,
    e: Ty,
    c: Cache,
)
    requires
        n <= others.len(),
        results_joined(n, others, result, c) matches Some((_, c1)) && c1.type_bindings.len()
            <= usize::MAX,
        !holds(result.effects, e, c),
        !holds(row, e, c),
        forall|i: int| 0 <= i < others.len() ==> !holds((#[trigger] others[i]).effects, e, c),
    ensures
        ({
            let (all, c1) = results_joined(n, others, result, c)->0;
            &&& !holds(all.effects, e, c1)
            &&& !holds(row, e, c1)
            &&& forall|i: int|
                0 <= i < others.len() ==> !holds((#[trigger] others[i]).effects, e, c1)
        }),
    decreases n,
{
    if n > 0 {
        let k = (n - 1) as nat;
        let (all1, c1) = results_joined(k, others, result, c)->0;
        let (all, c2) = results_joined(n, others, result, c)->0;
        lemma_results(all1, others[n - 1], c1);
        lemma_all_joined_without(k, others, result, row, e, c);
        lemma_joined_without(all1.effects, others[n - 1].effects, e, c1);
        lemma_still_without(row, e, committed(c1), committed(c2));
        assert forall|i: int| 0 <= i < others.len() implies !holds(
            (#[trigger] others[i]).effects,
            e,
            c2,
        ) by {
            lemma_still_without(others[i].effects, e, committed(c1), committed(c2));
        }
    }
}

/// Whether neither the row nor any of the rows is open in the variable.
pub open spec fn is_apart(
    v: TypeVariableId,
    row: EffectRow,
    rows: Seq<EffectRow>,
    c: Cache,
) -> bool {
    &&& !row_ends(row, v, committed(c))
    &&& forall|i: int| 0 <= i < rows.len() ==> !row_ends(#[trigger] rows[i], v, committed(c))
}

/// Whether the row can be followed to its end, does not hold the effect, and is open in no variable
/// that the others are open in.
pub open spec fn is_unrelated(
    own: EffectRow,
    e: Ty,
    row: EffectRow,
    rows: Seq<EffectRow>,
    c: Cache,
) -> bool {
    &&& flat(own, c) is Some
    &&& !holds(own, e, c)
    &&& forall|v: TypeVariableId| #[trigger]
        row_ends(own, v, committed(c)) ==> is_apart(v, row, rows, c)
}

/// Whether the ends of a row are among those that the other rows had, or new.
spec fn ends_known(
    own: EffectRow,
    row: EffectRow,
    rows: Seq<EffectRow>,
    before: Cache,
    c: Cache,
) -> bool {
    forall|v: TypeVariableId| #[trigger]
        row_ends(own, v, committed(c)) ==> !is_apart(v, row, rows, before) || v.0
            >= before.type_bindings.len()
}

/// Adding effects binds only variables that the rows are open in.
proof fn lemma_added_apart(n: nat, rows: Seq<EffectRow>, row: EffectRow, c: Cache)
    requires
        n <= rows.len(),
        effects_added(n, rows, row, c) matches Some((_, c1)) && c1.type_bindings.len()
            <= usize::MAX,
    ensures
        ({
            let (all, c1) = effects_added(n, rows, row, c)->0;
            &&& c.type_bindings.len() <= c1.type_bindings.len()
            &&& forall|v: TypeVariableId|
                v.0 < c.type_bindings.len() && #[trigger] is_apart(v, row, rows, c)
                    ==> c1.type_bindings[v.0 as int] == c.type_bindings[v.0 as int]
            &&& ends_known(all, row, rows, c, c1)
            &&& forall|i: int|
                0 <= i < rows.len() ==> ends_known(#[trigger] rows[i], row, rows, c, c1)
        }),
    decreases n,
{
    if n == 0 {
        assert forall|i: int| 0 <= i < rows.len() implies ends_known(
            #[trigger] rows[i],
            row,
            rows,
            c,
            c,
        ) by {}
    } else {
        let k = (n - 1) as nat;
        let (row1, c1) = effects_added(k, rows, row, c)->0;
        let (all, c2) = effects_added(n, rows, row, c)->0;
        let own = rows[n - 1];
        law_combining_goes_on(row1, own, c1);
        lemma_added_apart(k, rows, row, c);
        lemma_grows_on(c1, c2);
        lemma_flat_end(row1, c1);
        lemma_flat_end(own, c1);
        let s = committed(c1);
        let r = committed(c2);
        let (xs, end1) = flat(row1, c1)->0;
        let (ys, end2) = flat(own, c1)->0;
        let none = |t: Ty| false;
        lemma_flattened(MAX_DEPTH as nat, row1.0, row1.1, none, s);
        lemma_flattened(MAX_DEPTH as nat, own.0, own.1, none, s);
        assert(row1 == (row1.0, row1.1) && own == (own.0, own.1));
        assert(ends_known(own, row, rows, c, c1));
        let z = c1.next_id();
        if let Some(x) = end1 {
            assert(row_ends(row1, x, s));
        }
        if let Some(y) = end2 {
            assert(row_ends(own, y, s));
        }
        assert forall|i: int| 0 <= i < rows.len() implies ends_known(
            #[trigger] rows[i],
            row,
            rows,
            c,
            c2,
        ) by {
            assert(ends_known(rows[i], row, rows, c, c1));
            lemma_ends_after(rows[i], row1, own, row, rows, c, c1);
        }
        assert(ends_known(all, row, rows, c, c2)) by {
            lemma_unfold(all, none, r);
            if let Some(w) = all.1 {
                if w.0 < c1.type_bindings.len() {
                    assert(c1 == c2);
                }
                assert(bound_row(w, r) is None);
            }
        }
        assert forall|v: TypeVariableId|
            v.0 < c.type_bindings.len() && #[trigger] is_apart(v, row, rows, c) implies
            c2.type_bindings[v.0 as int] == c.type_bindings[v.0 as int] by {
            assert(c1.type_bindings[v.0 as int] == c.type_bindings[v.0 as int]);
        }
    }
}

proof fn lemma_ends_after(
    own: EffectRow,
    a: EffectRow,
    b: EffectRow,
    row: EffectRow,
    rows: Seq<EffectRow>,
    before: Cache,
    c: Cache,
)
    requires
        combined(a, b, c) matches Some((_, c1)) && c1.type_bindings.len() <= usize::MAX,
        ends_known(own, row, rows, before, c),
        before.type_bindings.len() <= c.type_bindings.len(),
    ensures
        ends_known(own, row, rows, before, (combined(a, b, c)->0).1),
{
    let (_, c1) = combined(a, b, c)->0;
    let s = committed(c);
    let r = committed(c1);
    law_combining_goes_on(a, b, c);
    lemma_grows_on(c, c1);
    lemma_flat_end(a, c);
    lemma_flat_end(b, c);
    let none = |t: Ty| false;
    lemma_later(own, none, s, r);
    assert forall|u: TypeVariableId| #[trigger] row_ends(own, u, r) implies !is_apart(
        u,
        row,
        rows,
        before,
    ) || u.0 >= before.type_bindings.len() by {
        let v = choose|v: TypeVariableId| #[trigger]
            row_ends(own, v, s) && row_ends(only_open(v), u, r);
        lemma_end_is_unbound(own, v, s);
        lemma_unfold(only_open(v), none, r);
        if let Some(next) = bound_row(v, r) {
            let z = c.next_id();
            assert(next.1 == Some(z));
            assert(bound_row(z, r) is None);
            lemma_unfold(next, none, r);
            assert(u == z);
        }
    }
}

/// A row that is unrelated to others stays as it is when their effects are added.
proof fn lemma_unrelated_stays(
    own: EffectRow,
    n: nat,
    rows: Seq<EffectRow>,
    row: EffectRow,
    e: Ty,
    c: Cache,
)
    requires
        n <= rows.len(),
        effects_added(n, rows, row, c) matches Some((_, c1)) && c1.type_bindings.len()
            <= usize::MAX,
        is_unrelated(own, e, row, rows, c),
    ensures
        ({
            let (_, c1) = effects_added(n, rows, row, c)->0;
            &&& !holds(own, e, c1)
            &&& flatten_same(own, c, c1)
        }),
{
    let (_, c1) = effects_added(n, rows, row, c)->0;
    let s = committed(c);
    let r = committed(c1);
    lemma_effects_added(n, rows, row, c);
    lemma_grows_on(c, c1);
    lemma_added_apart(n, rows, row, c);
    lemma_flat_end(own, c);
    lemma_flattened(MAX_DEPTH as nat, own.0, own.1, is_effect(e), s);
    assert(own == (own.0, own.1));
    lemma_later(own, is_effect(e), s, r);
    let (xs, end) = flat(own, c)->0;
    if let Some(v) = end {
        assert(row_ends(own, v, s));
        assert(is_apart(v, row, rows, c));
        assert(bound_row(v, r) is None);
        lemma_unfold(only_open(v), is_effect(e), r);
    }
    lemma_flatten_same(MAX_DEPTH as nat, own.0, own.1, c, c1);
}

/// Whether the row comes to the same in both caches.
spec fn flatten_same(row: EffectRow, c: Cache, c1: Cache) -> bool {
    flat(row, c1) == flat(row, c)
}

proof fn lemma_flatten_same(
    n: nat,
    effects: Seq<Ty>,
    extension: Option<TypeVariableId>,
    c: Cache,
    c1: Cache,
)
    requires
        goes_on(c, c1),
        c1.type_bindings.len() <= usize::MAX,
        flatten(n, effects, extension, Map::empty(), c.type_bindings) matches Some((_, end)) && (
        end matches Some(v) ==> v.0 < c1.type_bindings.len() && c1.type_bindings[v.0 as int]
            is Unbound),
    ensures
        flatten(n, effects, extension, Map::empty(), c1.type_bindings) == flatten(
            n,
            effects,
            extension,
            Map::empty(),
            c.type_bindings,
        ),
    decreases n,
{
    if let Some(id) = extension {
        let d = (n - 1) as nat;
        let _ = c1.type_bindings[id.0 as int];
        match lookup(c.type_bindings, id) {
            Some(Binding::Bound(Ty::Variable(v))) => {
                lemma_flatten_same(d, effects, Some(v), c, c1);
            },
            Some(Binding::Bound(Ty::NamedGeneric(v, _))) => {
                lemma_flatten_same(d, effects, Some(v), c, c1);
            },
            Some(Binding::Bound(Ty::Effects(more, end))) => {
                lemma_flatten_same(d, effects + more, end, c, c1);
            },
            _ => {},
        }
    }
}

proof fn lemma_flatten_is_one(
    n: nat,
    m: nat,
    effects: Seq<Ty>,
    extension: Option<TypeVariableId>,
    c: Cache,
)
    requires
        flatten(n, effects, extension, Map::empty(), c.type_bindings) is Some,
        flatten(m, effects, extension, Map::empty(), c.type_bindings) is Some,
    ensures
        flatten(n, effects, extension, Map::empty(), c.type_bindings) == flatten(
            m,
            effects,
            extension,
            Map::empty(),
            c.type_bindings,
        ),
    decreases n,
{
    if let Some(id) = extension {
        let (d, f) = ((n - 1) as nat, (m - 1) as nat);
        match lookup(c.type_bindings, id) {
            Some(Binding::Bound(Ty::Variable(v))) => {
                lemma_flatten_is_one(d, f, effects, Some(v), c);
            },
            Some(Binding::Bound(Ty::NamedGeneric(v, _))) => {
                lemma_flatten_is_one(d, f, effects, Some(v), c);
            },
            Some(Binding::Bound(Ty::Effects(more, end))) => {
                lemma_flatten_is_one(d, f, effects + more, end, c);
            },
            _ => {},
        }
    }
}

proof fn lemma_lacking_none(effects: Seq<Ty>)
    ensures
        effects_without(effects, Seq::empty()) == effects,
    decreases effects.len(),
{
    if effects.len() > 0 {
        lemma_lacking_none(effects.drop_last());
        assert(effects.drop_last().push(effects.last()) =~= effects);
    }
}

/// Whether a state binds nothing but the first variable, and the second one if it is bound to a row
/// that holds nothing, so that what the first one is bound to holds the effects.
spec fn takes_over(
    y: TypeVariableId,
    rs: Seq<Ty>,
    w0: Option<TypeVariableId>,
    s: State,
    r: State,
) -> bool {
    &&& r.binding_of(y) matches Some(Binding::Bound(_))
    &&& ({
        let row = type_row(r.binding_of(y)->0->Bound_0);
        row.0 == rs && (row.1 matches Some(z) ==> z != y && !(s.binding_of(z) matches Some(
            Binding::Bound(_),
        )))
    })
    &&& forall|v: TypeVariableId|
        ((#[trigger] r.binding_of(v)) matches Some(Binding::Bound(_))) && !(s.binding_of(
            v,
        ) matches Some(Binding::Bound(_))) ==> v == y || (w0 == Some(v) && {
            let row = type_row(r.binding_of(v)->0->Bound_0);
            row.0.len() == 0 && (row.1 matches Some(z) ==> !(r.binding_of(z) matches Some(
                Binding::Bound(_),
            )))
        })
}

proof fn lemma_taken_over(
    depth: nat,
    n: nat,
    t: Ty,
    rs: Seq<Ty>,
    w0: Option<TypeVariableId>,
    y: TypeVariableId,
    c: Cache,
)
    requires
        t is Variable || t is NamedGeneric || t is Effects,
        flatten(n, type_row(t).0, type_row(t).1, Map::empty(), c.type_bindings) matches Some(
            (xs, end),
        ) && xs.len() == 0 && end == Some(y),
        lookup(c.type_bindings, y) matches Some(Binding::Unbound(_, _)),
        w0 matches Some(w) ==> w != y && (lookup(c.type_bindings, w) matches Some(
            Binding::Unbound(_, _),
        )),
        succeeded(unify_types(depth, t, Ty::Effects(rs, w0), committed(c))),
        unify_types(depth, t, Ty::Effects(rs, w0), committed(c))->0.state.cache.type_bindings.len()
            <= usize::MAX,
    ensures
        takes_over(
            y,
            rs,
            w0,
            committed(c),
            unify_types(depth, t, Ty::Effects(rs, w0), committed(c))->0.state,
        ),
    decreases depth,
{
    let s = committed(c);
    let b = Ty::Effects(rs, w0);
    let d = (depth - 1) as nat;
    let vars = c.type_bindings;
    let none = Map::<usize, Ty>::empty();
    let r = unify_types(depth, t, b, s)->0.state;
    assert(s.solution.types == none);
    match t {
        Ty::Variable(v) => {
            assert(unify_types(depth, t, b, s) == unify_variable(d, v, t, b, true, s));
            match s.binding_of(v) {
                Some(Binding::Bound(u)) => {
                    assert(flatten((n - 1) as nat, type_row(u).0, type_row(u).1, none, vars)
                        == flatten(n, type_row(t).0, type_row(t).1, none, vars)) by {
                        if let Ty::Effects(more, _) = u {
                            assert(Seq::<Ty>::empty() + more =~= more);
                        }
                    }
                    lemma_taken_over(d, (n - 1) as nat, u, rs, w0, y, c);
                },
                _ => {
                    assert(follow(MAX_DEPTH as nat, b, none, vars) == Some(b));
                    assert(v == y);
                },
            }
        },
        Ty::NamedGeneric(v, _) => {
            if let Some(Binding::Bound(u)) = s.binding_of(v) {
                assert(flatten((n - 1) as nat, type_row(u).0, type_row(u).1, none, vars)
                    == flatten(n, type_row(t).0, type_row(t).1, none, vars)) by {
                    if let Ty::Effects(more, _) = u {
                        assert(Seq::<Ty>::empty() + more =~= more);
                    }
                }
                lemma_taken_over(d, (n - 1) as nat, u, rs, w0, y, c);
            }
        },
        Ty::Effects(more, extension) => {
            assert(unify_types(depth, t, b, s) == unify_effects(d, more, extension, rs, w0, s));
            lemma_flatten_is_one(n, MAX_DEPTH as nat, more, extension, c);
            let (xs, _) = flatten(MAX_DEPTH as nat, more, extension, none, vars)->0;
            assert(flatten(MAX_DEPTH as nat, rs, w0, none, vars) == Some((rs, w0)));
            assert(xs =~= Seq::empty());
            lemma_lacking_none(rs);
            assert(effects_without(rs, xs) == rs);
            assert(effects_without(xs, rs).len() == 0);
            assert(unify_common(d, xs, rs, s) == unified(s));
            let own = Ty::Variable(y);
            match w0 {
                None => {
                    let row = Ty::Effects(rs, None);
                    assert(follow(MAX_DEPTH as nat, row, none, vars) == Some(row));
                },
                Some(w) => {
                    if rs.len() == 0 {
                        assert(follow(MAX_DEPTH as nat, Ty::Variable(w), none, vars) == Some(
                            Ty::Variable(w),
                        ));
                        assert(rs =~= Seq::empty());
                    } else {
                        let c1 = fresh_row(c, y, w)->0;
                        let z = c.next_id();
                        let s2 = State { solution: s.solution, cache: c1 };
                        let t1 = Ty::Effects(rs, Some(z));
                        let t2 = Ty::Effects(effects_without(xs, rs), Some(z));
                        law_unify_keeps(depth, t, b, s);
                        assert(follow(MAX_DEPTH as nat, t1, none, c1.type_bindings) == Some(t1));
                        let second = unify_variable(d, y, own, t1, true, s2);
                        let s3 = second->0.state;
                        assert(s3.solution.types == none.insert(y.0, t1));
                        assert(follow(
                            MAX_DEPTH as nat,
                            t2,
                            s3.solution.types,
                            c1.type_bindings,
                        ) == Some(t2));
                        assert(s3.binding_of(w) matches Some(Binding::Unbound(_, _)));
                        assert(r.solution.types == none.insert(y.0, t1).insert(w.0, t2));
                        assert(r.cache == c1);
                        assert(r.binding_of(y) == Some(Binding::Bound(t1)));
                    }
                },
            }
        },
        _ => {},
    }
}

/// The cache after a variable that is not bound was unified with a type that is no row.
proof fn lemma_environment_unified(
    ev: TypeVariableId,
    actual: Ty,
    location: Location,
    reason: Reason,
    c: Cache,
)
    requires
        lookup(c.type_bindings, ev) matches Some(Binding::Unbound(_, _)),
        actual is Application,
        after_unify(Ty::Variable(ev), actual, location, reason, c) matches Some(c1)
            && c1.type_bindings.len() <= usize::MAX,
    ensures
        ({
            let c1 = after_unify(Ty::Variable(ev), actual, location, reason, c)->0;
            &&& goes_on(c, c1)
            &&& c1.type_bindings.len() == c.type_bindings.len()
            &&& forall|v: TypeVariableId|
                ((#[trigger] committed(c1).binding_of(v)) matches Some(Binding::Bound(_))) && !(
                committed(c).binding_of(v) matches Some(Binding::Bound(_))) ==> v == ev
                    && committed(c1).binding_of(v) == Some(Binding::Bound(actual))
        }),
{
    let c1 = after_unify(Ty::Variable(ev), actual, location, reason, c)->0;
    let s0 = committed(c);
    let depth = MAX_DEPTH as nat;
    let a = Ty::Variable(ev);
    law_unify_goes_on(a, actual, location, reason, c);
    law_unify_keeps(depth, a, actual, s0);
    assert(is_proper(s0));
    let step = fresh_unification(a, actual, c)->0;
    let s = step.state;
    assert(unify_types(depth, a, actual, s0) == unify_variable(
        (depth - 1) as nat,
        ev,
        a,
        actual,
        true,
        s0,
    ));
    assert(follow(depth, actual, s0.solution.types, c.type_bindings) == Some(actual));
    assert(s.cache == c);
    lemma_perform_length(s);
    if step.ok {
        assert forall|v: TypeVariableId|
            ((#[trigger] committed(c1).binding_of(v)) matches Some(Binding::Bound(_))) && !(
            committed(c).binding_of(v) matches Some(Binding::Bound(_))) implies v == ev
            && committed(c1).binding_of(v) == Some(Binding::Bound(actual)) by {
            lemma_commit_hops(s, Ty::Variable(v));
            assert(hop(Ty::Variable(v), committed(c1)) == hop(Ty::Variable(v), s));
        }
    }
}

/// What is unrelated stays so when the environment is found.
proof fn lemma_unrelated_still(
    own: EffectRow,
    e: Ty,
    row: EffectRow,
    rows: Seq<EffectRow>,
    ev: TypeVariableId,
    actual: Ty,
    c: Cache,
    c1: Cache,
)
    requires
        is_unrelated(own, e, row, rows, c),
        !row_ends(own, ev, committed(c)),
        goes_on(c, c1),
        c1.type_bindings.len() <= usize::MAX,
        actual is Application,
        forall|v: TypeVariableId|
            ((#[trigger] committed(c1).binding_of(v)) matches Some(Binding::Bound(_))) && !(
            committed(c).binding_of(v) matches Some(Binding::Bound(_))) ==> v == ev && committed(
                c1,
            ).binding_of(v) == Some(Binding::Bound(actual)),
    ensures
        is_unrelated(own, e, row, rows, c1),
        flat(own, c1) == flat(own, c),
{
    let s = committed(c);
    let r = committed(c1);
    lemma_grows_on(c, c1);
    assert(binds_without(e, s, r)) by {
        lemma_unfold((Seq::empty(), None), is_effect(e), r);
    }
    lemma_still_without(own, e, s, r);
    lemma_flat_end(own, c);
    lemma_flattened(MAX_DEPTH as nat, own.0, own.1, is_effect(e), s);
    assert(own == (own.0, own.1));
    let (xs, end) = flat(own, c)->0;
    if let Some(v) = end {
        assert(row_ends(own, v, s));
        assert(!(r.binding_of(v) matches Some(Binding::Bound(_))));
        let _ = c1.type_bindings[v.0 as int];
    }
    lemma_flatten_same(MAX_DEPTH as nat, own.0, own.1, c, c1);
    lemma_flattened(MAX_DEPTH as nat, own.0, own.1, is_effect(e), r);
    assert forall|v: TypeVariableId| #[trigger] row_ends(own, v, r) implies is_apart(
        v,
        row,
        rows,
        c1,
    ) by {
        assert(row_ends(own, v, s));
        lemma_not_open(row, v, ev, actual, c, c1);
        assert forall|i: int| 0 <= i < rows.len() implies !row_ends(#[trigger] rows[i], v, r) by {
            lemma_not_open(rows[i], v, ev, actual, c, c1);
        }
    }
}

proof fn lemma_not_open(
    row: EffectRow,
    v: TypeVariableId,
    ev: TypeVariableId,
    actual: Ty,
    c: Cache,
    c1: Cache,
)
    requires
        !row_ends(row, v, committed(c)),
        grows(committed(c), committed(c1)),
        actual is Application,
        forall|v: TypeVariableId|
            ((#[trigger] committed(c1).binding_of(v)) matches Some(Binding::Bound(_))) && !(
            committed(c).binding_of(v) matches Some(Binding::Bound(_))) ==> v == ev && committed(
                c1,
            ).binding_of(v) == Some(Binding::Bound(actual)),
    ensures
        !row_ends(row, v, committed(c1)),
{
    let s = committed(c);
    let r = committed(c1);
    let none = |t: Ty| false;
    lemma_later(row, none, s, r);
    if row_ends(row, v, r) {
        let u = choose|u: TypeVariableId| #[trigger]
            row_ends(row, u, s) && row_ends(only_open(u), v, r);
        lemma_end_is_unbound(row, u, s);
        lemma_unfold(only_open(u), none, r);
        if let Some(next) = bound_row(u, r) {
            lemma_unfold(next, none, r);
        }
    }
}

/// What unifying the effects of `resume` with the rest achieves, where they were not known before.
proof fn lemma_resume_unified(
    xv: TypeVariableId,
    y: TypeVariableId,
    rest: EffectRow,
    location: Location,
    reason: Reason,
    e: Ty,
    c: Cache,
)
    requires
        flat(only_open(xv), c) matches Some((xs, end)) && xs.len() == 0 && end == Some(y),
        rest.1 matches Some(w) ==> w != y && (lookup(c.type_bindings, w) matches Some(
            Binding::Unbound(_, _),
        )),
        after_unify(
            Ty::Variable(xv),
            Ty::Effects(rest.0, rest.1),
            location,
            reason,
            c,
        ) matches Some(c1) && c1.type_bindings.len() <= usize::MAX,
    ensures
        ({
            let c1 = after_unify(
                Ty::Variable(xv),
                Ty::Effects(rest.0, rest.1),
                location,
                reason,
                c,
            )->0;
            &&& goes_on(c, c1)
            &&& !rest.0.contains(e) ==> binds_without(e, committed(c), committed(c1))
            &&& reports_nothing(c, c1) && rest.0.contains(e) ==> holds(only_open(xv), e, c1)
        }),
{
    let a = Ty::Variable(xv);
    let b = Ty::Effects(rest.0, rest.1);
    let c1 = after_unify(a, b, location, reason, c)->0;
    let s0 = committed(c);
    let depth = MAX_DEPTH as nat;
    let wanted = is_effect(e);
    law_unify_goes_on(a, b, location, reason, c);
    law_unify_keeps(depth, a, b, s0);
    assert(is_proper(s0));
    let step = fresh_unification(a, b, c)->0;
    let s = step.state;
    lemma_perform_length(s);
    let r = committed(c1);
    lemma_grows_on(c, c1);
    lemma_flat_end(only_open(xv), c);
    if step.ok {
        lemma_taken_over(depth, depth, a, rest.0, rest.1, y, c);
        assert forall|v: TypeVariableId|
            ((#[trigger] r.binding_of(v)) matches Some(Binding::Bound(_))) implies s.binding_of(v)
            matches Some(Binding::Bound(_)) && r.binding_of(v) == s.binding_of(v) by {
            lemma_commit_hops(s, Ty::Variable(v));
            assert(hop(Ty::Variable(v), r) == hop(Ty::Variable(v), s));
        }
        lemma_commit_hops(s, Ty::Variable(y));
        assert(hop(Ty::Variable(y), r) == hop(Ty::Variable(y), s));
        assert(r.binding_of(y) == s.binding_of(y));
        let own = type_row(r.binding_of(y)->0->Bound_0);
        if rest.0.contains(e) {
            lemma_holds_own(own, e, c1);
            lemma_unfold(only_open(y), wanted, r);
            lemma_flattened(depth, Seq::empty(), Some(xv), wanted, s0);
            lemma_later(only_open(xv), wanted, s0, r);
            assert(row_ends(only_open(xv), y, s0));
        } else {
            assert forall|v: TypeVariableId|
                ((#[trigger] r.binding_of(v)) matches Some(Binding::Bound(_))) && !(s0.binding_of(
                    v,
                ) matches Some(Binding::Bound(_))) implies !row_has(
                type_row(r.binding_of(v)->0->Bound_0),
                wanted,
                r,
            ) by {
                let row = type_row(r.binding_of(v)->0->Bound_0);
                lemma_unfold(row, wanted, r);
                if any_of(row.0, wanted) {
                    let i = choose|i: int| 0 <= i < row.0.len() && wanted(#[trigger] row.0[i]);
                    assert(row.0[i] == e);
                    assert(row.0.contains(e));
                }
                if let Some(z) = row.1 {
                    if let Some(next) = bound_row(z, r) {
                        assert(s.binding_of(z) matches Some(Binding::Bound(_)));
                        lemma_unfold(next, wanted, r);
                        assert(!any_of(next.0, wanted));
                        if let Some(u) = next.1 {
                            if bound_row(u, r) is Some {
                                assert(s.binding_of(u) matches Some(Binding::Bound(_)));
                            }
                        }
                    }
                }
            }
        }
    } else {
        assert forall|v: TypeVariableId|
            ((#[trigger] r.binding_of(v)) matches Some(Binding::Bound(_))) implies s0.binding_of(v)
            matches Some(Binding::Bound(_)) by {
            let _ = c1.type_bindings[v.0 as int];
            assert(c1.type_bindings == s.cache.type_bindings);
        }
    }
}

/// Whether the effects of `resume` are not known yet when the handler is finished, nor its
/// environment, and what the bodies and `resume` have is unrelated to what is handled.
pub open spec fn is_plain_handler(
    result: Typing,
    ev: TypeVariableId,
    xv: TypeVariableId,
    h: Handlers,
    e: Ty,
    c: Cache,
) -> bool {
    &&& h.traits.len() == h.effects.len()
    &&& lookup(c.type_bindings, ev) matches Some(Binding::Unbound(_, _))
    &&& is_unrelated(only_open(xv), e, result.effects, h.effects, c)
    &&& flat(only_open(xv), c) matches Some((es, end)) && es.len() == 0 && end is Some
    &&& !row_ends(only_open(xv), ev, committed(c))
    &&& forall|i: int|
        0 <= i < h.results.len() ==> !row_ends((#[trigger] h.results[i]).effects, ev, committed(c))
}

/// The effects that a pattern has are handled: neither the handler nor its `resume` has them,
/// unless a body has them. What is left of the effects of the handled expression, `resume` has as
/// well.
pub proof fn law_handled_effects_are_gone(
    result: Typing,
    ev: TypeVariableId,
    xv: TypeVariableId,
    h: Handlers,
    free: Seq<Ty>,
    location: Location,
    c: Cache,
    e: Ty,
)
    requires
        is_plain_handler(result, ev, xv, h, e, c),
        h.effects.len() > 0,
        handle_finished(
            result,
            Ty::Variable(ev),
            Ty::Variable(xv),
            h,
            free,
            location,
            c,
        ) matches Some((_, _, end)) && end.type_bindings.len() <= usize::MAX,
    ensures
        ({
            let (r, _, end) = handle_finished(
                result,
                Ty::Variable(ev),
                Ty::Variable(xv),
                h,
                free,
                location,
                c,
            )->0;
            &&& (exists|i: int| 0 <= i < h.effects.len() && holds(#[trigger] h.effects[i], e, c))
                && (forall|i: int|
                0 <= i < h.results.len() ==> is_unrelated(
                    (#[trigger] h.results[i]).effects,
                    e,
                    result.effects,
                    h.effects,
                    c,
                )) ==> !holds(r.effects, e, end) && !holds(only_open(xv), e, end)
            &&& reports_nothing(c, end) && holds(result.effects, e, c) && (forall|i: int|
                0 <= i < h.effects.len() ==> !holds(#[trigger] h.effects[i], e, end)) ==> holds(
                only_open(xv),
                e,
                end,
            )
        }),
{
    let (environment, resume_effects) = (Ty::Variable(ev), Ty::Variable(xv));
    let (r, handled, end) = handle_finished(
        result,
        environment,
        resume_effects,
        h,
        free,
        location,
        c,
    )->0;
    let n = h.effects.len();
    let rows = h.effects;
    let wanted = is_effect(e);
    let actual = tuple_ty(seq![continuation_ty()] + free);
    let reason = Reason::ResumeEnvironmentMismatch;
    law_unify_goes_on(environment, actual, location, reason, c);
    let c1 = after_unify(environment, actual, location, reason, c)->0;
    lemma_effects_added(n, rows, result.effects, c1);
    let (row, c2) = effects_added(n, rows, result.effects, c1)->0;
    let all = Typing { effects: row, ..result };
    let (rest, _) = effects_handled_by(n, h.traits, rows, all, c2)->0;
    let left = Ty::Effects(rest.effects.0, rest.effects.1);
    let reason2 = Reason::ResumeEffectsMismatch;
    law_unify_goes_on(resume_effects, left, location, reason2, c2);
    let c3 = after_unify(resume_effects, left, location, reason2, c2)->0;
    lemma_results_joined(h.results.len(), h.results, rest, c3);
    law_goes_on_further(c, c1, c2);
    law_goes_on_further(c2, c3, end);
    assert(actual is Application) by {
        let parts = seq![continuation_ty()] + free;
        assert(parts[0] == continuation_ty());
    }
    lemma_environment_unified(ev, actual, location, reason, c);
    let own = only_open(xv);
    lemma_unrelated_still(own, e, result.effects, rows, ev, actual, c, c1);
    lemma_unrelated_stays(own, n, rows, result.effects, e, c1);
    let y = (flat(own, c)->0).1->0;
    lemma_handled(n, h.traits, rows, all, e, c2);
    lemma_added_flow(n, rows, result.effects, wanted, c1);
    lemma_added_apart(n, rows, result.effects, c1);
    // The end of the rest is that of the row that the effects were added to.
    lemma_flattened(MAX_DEPTH as nat, own.0, own.1, wanted, committed(c1));
    assert(row_ends(own, y, committed(c1)));
    assert(is_apart(y, result.effects, rows, c1));
    lemma_flat_end(own, c1);
    let (_, last) = flat(rest.effects, c2)->0;
    lemma_rest_end(n, h.traits, rows, all, c2);
    if let Some(w) = rest.effects.1 {
        assert(row_ends(rest.effects, w, committed(c2))) by {
            lemma_unfold(rest.effects, wanted, committed(c2));
            assert(bound_row(w, committed(c2)) is None);
        }
        assert(row_ends(row, w, committed(c2)));
        assert(w != y);
    }
    lemma_resume_unified(xv, y, rest.effects, location, reason2, e, c2);
    lemma_grows_on(c, c2);
    lemma_grows_on(c2, c3);
    lemma_grows_on(c3, end);
    lemma_grows_on(c2, end);
    assert forall|i: int| 0 <= i < n implies (holds(#[trigger] rows[i], e, c) ==> holds(
        rows[i],
        e,
        c2,
    )) && (holds(rows[i], e, c2) ==> holds(rows[i], e, end)) by {
        lemma_later(rows[i], wanted, committed(c), committed(c2));
        lemma_later(rows[i], wanted, committed(c2), committed(end));
    }
    if (exists|i: int| 0 <= i < n && holds(#[trigger] rows[i], e, c)) && (forall|i: int|
        0 <= i < h.results.len() ==> is_unrelated(
            (#[trigger] h.results[i]).effects,
            e,
            result.effects,
            rows,
            c,
        )) {
        let i = choose|i: int| 0 <= i < n && holds(#[trigger] rows[i], e, c);
        assert(holds(rows[i], e, c2));
        assert(!holds(rest.effects, e, c2));
        if rest.effects.0.contains(e) {
            lemma_holds_own(rest.effects, e, c2);
        }
        lemma_still_without(rest.effects, e, committed(c2), committed(c3));
        lemma_still_without(own, e, committed(c2), committed(c3));
        assert forall|j: int| 0 <= j < h.results.len() implies !holds(
            (#[trigger] h.results[j]).effects,
            e,
            c3,
        ) by {
            let body = h.results[j].effects;
            lemma_unrelated_still(body, e, result.effects, rows, ev, actual, c, c1);
            lemma_unrelated_stays(body, n, rows, result.effects, e, c1);
            lemma_still_without(body, e, committed(c2), committed(c3));
        }
        lemma_all_joined_without(h.results.len(), h.results, rest, own, e, c3);
    }
    if reports_nothing(c, end) && holds(result.effects, e, c) && (forall|i: int|
        0 <= i < n ==> !holds(#[trigger] rows[i], e, end)) {
        lemma_later(result.effects, wanted, committed(c), committed(c2));
        assert(holds(row, e, c2));
        assert(holds(rest.effects, e, c2));
        assert(rest.effects.0.contains(e));
        lemma_later(own, wanted, committed(c3), committed(end));
    }
}

/// What is left is open in a variable only that is not bound.
proof fn lemma_rest_end(
    n: nat,
    traits: Seq<Seq<Constraint>>,
    rows: Seq<EffectRow>,
    result: Typing,
    c: Cache,
)
    requires
        0 < n,
        effects_handled_by(n, traits, rows, result, c) is Some,
    ensures
        ({
            let (rest, _) = effects_handled_by(n, traits, rows, result, c)->0;
            rest.effects.1 matches Some(w) ==> (lookup(c.type_bindings, w) matches Some(
                Binding::Unbound(_, _),
            ))
        }),
{
    let (rest1, _) = effects_handled_by((n - 1) as nat, traits, rows, result, c)->0;
    lemma_flat_end(rest1.effects, c);
}

} // verus!
