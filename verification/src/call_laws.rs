//! What inferring a call is for: what is called is a function from the arguments to the result, and
//! all its effects are effects of the call.

use crate::accord::{
    all_clean, clean, fieldless, head, heads_fit, is_island, law_solved_types_accord,
    lemma_clean_in_larger, lemma_commit_head, lemma_functions_quiet, lemma_head_further,
    lemma_island_is_quiet, lemma_islands_join, lemma_perform_length, lemma_quiet_join,
    lemma_solved_agree, lemma_stay_grow, lemma_unified_heads, lemma_unify_regular, quiet, small,
    stands_for,
};
use crate::agreement::{agree, agrees, committed, law_unify_sound};
use crate::cache::{Binding, Cache, Location, Reason};
use crate::effect_flow::{
    alike, flows, has_id, law_alike_stays, lemma_commit_row, lemma_solved_rows_alike,
    lemma_unified_alike, type_row,
};
use crate::expressions::infer_and_combine;
use crate::functions::{applied_to, function_ty, infer_arguments, locations, FunctionCall};
use crate::inference_laws::{
    law_reporting_call_goes_on, lemma_applied, lemma_arguments, lemma_infer_and_combine,
    only_goes_on,
};
use crate::progress::{
    gains, goes_on, law_goes_on_further, law_unification_goes_on, law_unify_goes_on,
    lemma_fresh_goes_on,
};
use crate::resolve::{follow, MAX_DEPTH};
use crate::results::Typing;
use crate::rule_laws::{
    are_parts, carries, is_part, lemma_carries_further, lemma_carries_itself, lemma_carries_still,
    lemma_further_part, lemma_next_part, lemma_only_part, lemma_part_still, lemma_parts_still,
    noted, reports_nothing,
};
use crate::rules::call_reported;
use crate::solve::{fresh_unification, mismatch};
use crate::tree::{inferred, Expression, Inferable, Tree};
use crate::types::{EffectInfoId, Ty};
use crate::unify::{succeeded, unify_seq, unify_types, unify_variable, State};
use crate::unify_laws::{is_proper, law_unify_keeps};
use vstd::prelude::*;

verus! {

/// A function type that unifies with a type has effects of the same ids as the function that the
/// type stands for.
proof fn lemma_function_effects_alike(
    k: Set<usize>,
    depth: nat,
    a: Ty,
    b: Ty,
    i: nat,
    id: EffectInfoId,
    s: State,
)
    requires
        a is Function,
        clean(a, k),
        clean(b, k),
        quiet(k, s),
        succeeded(unify_types(depth, a, b, s)),
        small(unify_types(depth, a, b, s)->0.state),
        head(i, b, unify_types(depth, a, b, s)->0.state) matches Some(g) && g is Function,
    ensures
        ({
            let r = unify_types(depth, a, b, s)->0.state;
            let g = head(i, b, r)->0;
            alike(type_row(*a->Function_effects), type_row(*g->Function_effects), has_id(id), r)
        }),
    decreases depth,
{
    let d = (depth - 1) as nat;
    let r = unify_types(depth, a, b, s)->0.state;
    let g = head(i, b, r)->0;
    lemma_unify_regular(k, depth, a, b, s);
    law_unify_sound(false, depth, a, b, s);
    match b {
        Ty::Variable(v) => {
            assert(unify_types(depth, a, b, s) == unify_variable(d, v, b, a, false, s));
            match s.binding_of(v) {
                Some(Binding::Bound(t)) => {
                    assert(r.binding_of(v) == s.binding_of(v));
                    lemma_function_effects_alike(k, d, a, t, (i - 1) as nat, id, s);
                },
                _ => {
                    assert(follow(
                        MAX_DEPTH as nat,
                        a,
                        s.solution.types,
                        s.cache.type_bindings,
                    ) == Some(a));
                    assert(stands_for(b, r) == Some(a));
                    assert(head((i - 1) as nat, a, r) == Some(a));
                },
            }
        },
        Ty::NamedGeneric(v, _) => {
            if let Some(Binding::Bound(t)) = s.binding_of(v) {
                assert(r.binding_of(v) == s.binding_of(v));
                lemma_function_effects_alike(k, d, a, t, (i - 1) as nat, id, s);
            }
        },
        Ty::Function { .. } => {
            lemma_functions_quiet(k, d, a, b, s);
            let t1 = unify_seq(d, a->parameters, b->parameters, s)->0.state;
            let t2 = unify_types(d, *b->return_type, *a->return_type, t1)->0.state;
            let t3 = unify_types(d, *a->environment, *b->environment, t2)->0.state;
            lemma_unified_alike(k, d, *a->Function_effects, *b->Function_effects, id, t3);
        },
        _ => {},
    }
}

/// A function type that was unified with a type has, in every later cache, effects of the same ids
/// as the function that the type stands for, if they are clean in a quiet set.
proof fn lemma_solved_function_effects(
    k: Set<usize>,
    a: Ty,
    b: Ty,
    i: nat,
    id: EffectInfoId,
    c: Cache,
    done: Cache,
    end: Cache,
)
    requires
        a is Function,
        quiet(k, committed(c)),
        clean(a, k),
        clean(b, k),
        succeeded(fresh_unification(a, b, c)),
        ({
            let s = fresh_unification(a, b, c)->0.state;
            done.type_bindings == s.cache.perform(s.solution).type_bindings
        }),
        gains(done, end),
        end.type_bindings.len() <= usize::MAX,
        head(i, b, committed(end)) matches Some(g) && g is Function,
    ensures
        ({
            let g = head(i, b, committed(end))->0;
            alike(
                type_row(*a->Function_effects),
                type_row(*g->Function_effects),
                has_id(id),
                committed(end),
            )
        }),
{
    let s0 = committed(c);
    let s = fresh_unification(a, b, c)->0.state;
    let solved = s.cache.perform(s.solution);
    law_unify_keeps(MAX_DEPTH as nat, a, b, s0);
    assert(is_proper(s0));
    law_unification_goes_on(a, b, c);
    lemma_perform_length(s);
    lemma_stay_grow(solved, end);
    let m = lemma_head_further(i, b, committed(solved), committed(end));
    let x = head(i, b, committed(solved))->0;
    let g = head(i, b, committed(end))->0;
    lemma_commit_head(i, b, s);
    lemma_unified_heads(MAX_DEPTH as nat, a, b, c);
    assert(heads_fit(a, b, s));
    assert(head(0, a, s) == Some(a));
    assert(head(i, b, s) == Some(x));
    assert(x == g);
    lemma_function_effects_alike(k, MAX_DEPTH as nat, a, b, i, id, s0);
    let row1 = type_row(*a->Function_effects);
    let row2 = type_row(*g->Function_effects);
    lemma_commit_row(row1, has_id(id), s);
    lemma_commit_row(row2, has_id(id), s);
    assert(alike(row1, row2, has_id(id), committed(solved)));
    law_alike_stays(row1, row2, has_id(id), committed(solved), committed(end));
}

/// The types noted on the nodes.
pub open spec fn noted_types(ts: Seq<Tree>) -> Seq<Ty> {
    Seq::new(ts.len(), |i: int| noted(ts[i]))
}

/// Whether no row of fields can be reached from any of the types.
pub open spec fn all_fieldless(ts: Seq<Ty>, c: Cache) -> bool {
    forall|i: int| 0 <= i < ts.len() ==> fieldless(#[trigger] ts[i], c)
}

/// Whether what is called stands for a function that takes as many arguments.
pub open spec fn is_callable(called: Ty, count: nat, c: Cache) -> bool {
    forall|i: nat|
        (#[trigger] head(i, called, committed(c))) matches Some(g) ==> g is Struct || (g is Function
            && (g->parameters.len() == count || (g->has_varargs && count >= g->parameters.len())))
}

/// Whether the arguments agree with the parameters of the function, and what it gives with the
/// result.
pub open spec fn takes(f: Ty, arguments: Seq<Ty>, result: Ty, c: Cache) -> bool {
    &&& forall|j: int|
        0 <= j < arguments.len() && j < f->parameters.len() ==> agree(
            false,
            #[trigger] arguments[j],
            f->parameters[j],
            committed(c),
        )
    &&& agree(false, *f->return_type, result, committed(c))
}

/// Whether the function that is called takes the arguments and gives the result.
pub open spec fn fits_call(called: Ty, arguments: Seq<Ty>, result: Ty, c: Cache) -> bool {
    forall|i: nat|
        (#[trigger] head(i, called, committed(c))) matches Some(g) ==> (g is Function ==> takes(
            g,
            arguments,
            result,
            c,
        ))
}

/// Whether all effects of the function that is called are effects of the call: each has one of its
/// id there, in whatever effects the two turn out to have.
pub open spec fn has_effects_of(called: Ty, call: Typing, c: Cache) -> bool {
    forall|i: nat, id: EffectInfoId|
        #![trigger head(i, called, committed(c)), has_id(id)]
        head(i, called, committed(c)) matches Some(g) ==> (g is Function ==> flows(
            type_row(*g->Function_effects),
            call.effects,
            has_id(id),
            committed(c),
        ))
}

proof fn lemma_arguments_are_parts<A: Inferable>(
    n: nat,
    args: Seq<Tree>,
    f: Typing,
    before: Cache,
    c: Cache,
)
    requires
        only_goes_on::<A>(),
        n <= args.len(),
        goes_on(before, c),
        infer_arguments::<A>(n, args, f, c) matches Some((_, _, _, c1)) && c1.type_bindings.len()
            <= usize::MAX,
    ensures
        ({
            let (trees, types, joint, c1) = infer_arguments::<A>(n, args, f, c)->0;
            &&& are_parts::<A>(n, args, trees, before, joint, c1)
            &&& types == noted_types(trees)
            &&& carries(f, joint, c1)
            &&& joint.typ == f.typ
            &&& goes_on(c, c1)
        }),
    decreases n,
{
    lemma_arguments::<A>(n, args, f, c);
    if n > 0 {
        let k = (n - 1) as nat;
        let (trees, types, joint, c1) = infer_arguments::<A>(k, args, f, c)->0;
        lemma_arguments::<A>(k, args, f, c);
        lemma_infer_and_combine::<A>(args[n - 1], joint, c1);
        lemma_arguments_are_parts::<A>(k, args, f, before, c);
        law_goes_on_further(before, c, c1);
        lemma_next_part::<A>(args[n - 1], joint, before, c1);
        let (last, joint2, own, c2) = infer_and_combine::<A>(args[n - 1], joint, c1)->0;
        lemma_further_part::<A>(k, args, trees, last, before, joint, c1, joint2, c2);
        lemma_carries_still(f, joint, c1, c2);
        lemma_carries_further(f, joint, joint2, c2);
        assert(noted_types(trees.push(last)) =~= types.push(own.typ));
    } else {
        lemma_carries_itself(f, c);
        assert(noted_types(Seq::empty()) =~= Seq::empty());
    }
}

/// A function that agrees with what a type stands for agrees with it in all its parts.
proof fn lemma_takes(
    types: Seq<Ty>,
    result: Ty,
    environment: Ty,
    effects: Ty,
    called: Ty,
    c: Cache,
)
    requires
        agree(false, function_ty(types, result, environment, effects), called, committed(c)),
    ensures
        fits_call(called, types, result, c),
{
    let call = function_ty(types, result, environment, effects);
    let s = committed(c);
    assert forall|i: nat|
        (#[trigger] head(i, called, s)) is Some && head(i, called, s)->0 is Function implies takes(
        head(i, called, s)->0,
        types,
        result,
        c,
    ) by {
        let g = head(i, called, s)->0;
        lemma_agree_with_head(i, call, called, s);
        assert forall|j: int| 0 <= j < types.len() && j < g->parameters.len() implies agree(
            false,
            #[trigger] types[j],
            g->parameters[j],
            s,
        ) by {
            assert forall|n: nat| agrees(false, n, types[j], g->parameters[j], s) by {
                assert(agrees(false, n + 1, call, g, s));
                assert(call->parameters[j] == types[j]);
            }
        }
        assert forall|n: nat| agrees(false, n, *g->return_type, result, s) by {
            assert(agrees(false, n + 1, call, g, s));
        }
    }
}

proof fn lemma_agree_with_head(i: nat, a: Ty, b: Ty, s: State)
    requires
        a is Function,
        agree(false, a, b, s),
        head(i, b, s) is Some,
    ensures
        agree(false, a, head(i, b, s)->0, s),
    decreases i,
{
    if let Some(t) = stands_for(b, s) {
        assert forall|n: nat| agrees(false, n, a, t, s) by {
            assert(agrees(false, n + 1, a, b, s));
        }
        lemma_agree_with_head((i - 1) as nat, a, t, s);
    }
}

/// Types from which no row of fields can be reached are clean in one island.
proof fn lemma_all_clean(ts: Seq<Ty>, c: Cache) -> (k: Set<usize>)
    requires
        all_fieldless(ts, c),
        c.type_bindings.len() <= usize::MAX,
    ensures
        is_island(k, c.type_bindings),
        all_clean(ts, k),
    decreases ts.len(),
{
    if ts.len() == 0 {
        Set::empty()
    } else {
        let front = ts.drop_last();
        assert forall|i: int| 0 <= i < front.len() implies fieldless(#[trigger] front[i], c) by {
            assert(front[i] == ts[i]);
        }
        let k = lemma_all_clean(front, c);
        let last = ts[ts.len() - 1];
        assert(fieldless(last, c));
        let m = choose|m: Set<usize>| #[trigger] is_island(m, c.type_bindings) && clean(last, m);
        lemma_islands_join(k, m, c.type_bindings);
        let all = k.union(m);
        assert forall|i: int| 0 <= i < ts.len() implies clean(#[trigger] ts[i], all) by {
            if i < front.len() {
                assert(clean(front[i], k));
                lemma_clean_in_larger(ts[i], k, all);
            } else {
                lemma_clean_in_larger(ts[i], m, all);
            }
        }
        all
    }
}

/// Applying a function to arguments with nothing to report: it is a function from the arguments to
/// the result, and its effects are among those that the call has.
proof fn lemma_applied_is_called(
    f: Typing,
    types: Seq<Ty>,
    argument_locations: Seq<Location>,
    location: Location,
    c: Cache,
)
    requires
        applied_to(f, types, argument_locations, location, c) matches Some((_, c1))
            && reports_nothing(c, c1) && c1.type_bindings.len() <= usize::MAX,
    ensures
        ({
            let (result, end) = applied_to(f, types, argument_locations, location, c)->0;
            &&& is_callable(f.typ, types.len(), end)
            &&& all_fieldless(types, end) && fieldless(f.typ, end) ==> fits_call(
                f.typ,
                types,
                result,
                end,
            )
            &&& all_fieldless(types, end) && fieldless(f.typ, end) && fieldless(
                Ty::Effects(f.effects.0, f.effects.1),
                end,
            ) ==> has_effects_of(f.typ, f, end)
        }),
{
    let (result, end) = applied_to(f, types, argument_locations, location, c)->0;
    let level = c.current_level;
    let c1 = c.fresh(level);
    let c2 = c1.fresh(level);
    let c3 = c2.fresh(level);
    lemma_fresh_goes_on(c, level);
    lemma_fresh_goes_on(c1, level);
    lemma_fresh_goes_on(c2, level);
    law_goes_on_further(c, c1, c2);
    law_goes_on_further(c, c2, c3);
    let effects = Ty::Variable(c1.next_id());
    let environment = Ty::Variable(c2.next_id());
    let call = function_ty(types, result, environment, effects);
    law_unification_goes_on(call, f.typ, c3);
    let step = fresh_unification(call, f.typ, c3)->0;
    let tried = step.state.cache;
    let issue = mismatch(location, Reason::CalledValueIsNotAFunction, call, f.typ, tried);
    law_goes_on_further(c, c3, tried);
    let c4 = if step.ok {
        tried.perform(step.state.solution)
    } else {
        law_reporting_call_goes_on(location, argument_locations, f.typ, call, issue, tried);
        call_reported(location, argument_locations, f.typ, call, issue, tried)->0
    };
    let row = Ty::Effects(f.effects.0, f.effects.1);
    law_unify_goes_on(effects, row, location, Reason::NeverShown, c4);
    assert(step.ok);
    law_goes_on_further(c, c3, c4);
    law_goes_on_further(c3, c4, end);
    law_solved_types_accord(call, f.typ, c3, c4, end);
    assert(head(0, call, committed(end)) == Some(call));
    let last = fresh_unification(effects, row, c4)->0;
    law_unify_keeps(MAX_DEPTH as nat, effects, row, committed(c4));
    assert(last.ok);
    assert(gains(end, end));
    if all_fieldless(types, end) && fieldless(f.typ, end) {
        let k1 = lemma_all_clean(types, end);
        let k2 = choose|k: Set<usize>| #[trigger]
            is_island(k, end.type_bindings) && clean(f.typ, k);
        lemma_islands_join(k1, k2, end.type_bindings);
        let n = c.type_bindings.len();
        assert forall|i: int| n <= i < c3.type_bindings.len() implies (
        #[trigger] c3.type_bindings[i]) is Unbound by {}
        let k = lemma_island_is_quiet(k1.union(k2), n, c3, end);
        assert forall|i: int| 0 <= i < types.len() implies clean(#[trigger] types[i], k) by {
            lemma_clean_in_larger(types[i], k1, k);
        }
        lemma_clean_in_larger(f.typ, k2, k);
        assert(clean(result, k) && clean(environment, k) && clean(effects, k));
        assert(clean(call, k));
        lemma_solved_agree(k, call, f.typ, c3, c4, end);
        lemma_takes(types, result, environment, effects, f.typ, end);
        if fieldless(row, end) {
            let m = choose|m: Set<usize>| #[trigger]
                is_island(m, end.type_bindings) && clean(row, m);
            let m4 = lemma_island_is_quiet(m, c4.type_bindings.len(), c4, end);
            lemma_quiet_join(k, m4, committed(c4));
            let all = k.union(m4);
            lemma_clean_in_larger(row, m, all);
            assert(clean(effects, all));
            assert forall|i: nat, id: EffectInfoId|
                #![trigger head(i, f.typ, committed(end)), has_id(id)]
                head(i, f.typ, committed(end)) is Some && head(
                    i,
                    f.typ,
                    committed(end),
                )->0 is Function implies flows(
                type_row(*(head(i, f.typ, committed(end))->0->Function_effects)),
                f.effects,
                has_id(id),
                committed(end),
            ) by {
                lemma_solved_function_effects(k, call, f.typ, i, id, c3, c4, end);
                lemma_solved_rows_alike(all, effects, row, id, c4, end, end);
            }
        }
    }
}

/// Where a call was inferred with nothing to report, what is called is a function of as many
/// arguments. Where no row of fields is involved, the arguments agree with its parameters and its
/// result with that of the call, and all its effects are effects of the call. A call has the
/// constraints and the effects of the called expression and of all arguments.
pub proof fn law_call_is_well_typed<A: Expression>(t: Tree, c: Cache)
    requires
        only_goes_on::<A>(),
        t is FunctionCall,
        FunctionCall::<A>::rule(t, c) matches Some(o) && o.cache.type_bindings.len()
            <= usize::MAX,
    ensures
        ({
            let o = FunctionCall::<A>::rule(t, c)->0;
            let n = t->FunctionCall_args.len();
            let called = noted(*o.tree->function);
            let arguments = noted_types(o.tree->FunctionCall_args);
            &&& o.tree is FunctionCall
            &&& is_part::<A>(*t->function, *o.tree->function, c, o.result, o.cache)
            &&& are_parts::<A>(
                n,
                t->FunctionCall_args,
                o.tree->FunctionCall_args,
                c,
                o.result,
                o.cache,
            )
            &&& reports_nothing(c, o.cache) ==> {
                &&& is_callable(called, n, o.cache)
                &&& all_fieldless(arguments, o.cache) && fieldless(called, o.cache) ==> fits_call(
                    called,
                    arguments,
                    o.result.typ,
                    o.cache,
                )
                &&& all_fieldless(arguments, o.cache) && fieldless(called, o.cache) && fieldless(
                    Ty::Effects(o.result.effects.0, o.result.effects.1),
                    o.cache,
                ) ==> has_effects_of(called, o.result, o.cache)
            }
        }),
{
    let end = FunctionCall::<A>::rule(t, c)->0;
    let (function, args) = (*t->function, t->FunctionCall_args);
    let o = inferred::<A>(function, c)->0;
    assert(goes_on(c, c));
    lemma_only_part::<A>(function, c, c);
    lemma_arguments::<A>(args.len(), args, o.result, o.cache);
    let (args1, types, joint, c1) = infer_arguments::<A>(args.len(), args, o.result, o.cache)->0;
    lemma_applied(joint, types, locations(args1), t.location_of(), c1);
    lemma_arguments_are_parts::<A>(args.len(), args, o.result, c, o.cache);
    law_goes_on_further(o.cache, c1, end.cache);
    law_goes_on_further(c, o.cache, c1);
    lemma_carries_itself(joint, end.cache);
    lemma_parts_still::<A>(args.len(), args, args1, c, joint, c1, end.result, end.cache);
    lemma_carries_still(o.result, joint, c1, end.cache);
    lemma_part_still::<A>(function, o.tree, c, o.result, o.cache, end.result, end.cache);
    if reports_nothing(c, end.cache) {
        lemma_applied_is_called(joint, types, locations(args1), t.location_of(), c1);
    }
}

} // verus!
