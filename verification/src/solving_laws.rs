//! What unification of plain types is for: it finds a solution whenever there is one, the most
//! general one, under which the types are the same; and there is nothing left to do afterwards.

use crate::acyclic::{
    is_acyclic, is_rowless, is_rowless_state, law_acyclic_resolves, law_all_stay_acyclic,
    law_unify_stays_acyclic, leads, lemma_all_plain_are_rowless, lemma_plain_is_rowless,
    lemma_plain_state_is_rowless, lemma_resolution_respects, lemma_resolved_is_applied, mentions,
    points_to, resolution, resolved,
};
use crate::agreement::{committed, hop, lemma_commit_hops};
use crate::bindings::{bind_all, Solution};
use crate::cache::{Binding, Cache, Location, Reason};
use crate::plain::{
    all_plain, apply, apply_all, is_plain, is_plain_state, lemma_apply_all, lemma_size_of_all,
    respects, size, unifies, unifies_all, var_count, Substitution,
};
use crate::plain_laws::{
    lemma_equal_lists, lemma_follow, lemma_respects_earlier, lemma_seq_solves, lemma_unify_solves,
};
use crate::resolve::{follow, law_follow_ends, MAX_DEPTH};
use crate::solve::{after_unify, fresh_unification, unification_of_all};
use crate::types::{Ty, TypeVariableId};
use crate::unify::{unify_seq, unify_types, unify_variable, State};
use crate::unify_laws::{changes_nothing, is_proper, law_unify_keeps};
use vstd::prelude::*;

verus! {

/// Whether the types and all that a variable is bound to are plain, and there are no cycles.
pub open spec fn is_plain_problem(a: Ty, b: Ty, s: State) -> bool {
    &&& is_plain(a, var_count(s))
    &&& is_plain(b, var_count(s))
    &&& is_plain_state(s)
    &&& is_acyclic(s)
}

/// The same for lists of types.
pub open spec fn is_plain_problem_of_all(xs: Seq<Ty>, ys: Seq<Ty>, s: State) -> bool {
    &&& all_plain(xs, var_count(s))
    &&& all_plain(ys, var_count(s))
    &&& is_plain_state(s)
    &&& is_acyclic(s)
}

proof fn lemma_stays_acyclic(depth: nat, a: Ty, b: Ty, s: State)
    requires
        is_plain_problem(a, b, s),
    ensures
        unify_types(depth, a, b, s) matches Some(r) ==> r.state.cache == s.cache && is_acyclic(
            r.state,
        ),
{
    lemma_plain_is_rowless(a, var_count(s));
    lemma_plain_is_rowless(b, var_count(s));
    lemma_plain_state_is_rowless(s);
    law_unify_stays_acyclic(depth, a, b, s);
}

proof fn lemma_all_stay_acyclic(depth: nat, xs: Seq<Ty>, ys: Seq<Ty>, s: State)
    requires
        is_plain_problem_of_all(xs, ys, s),
    ensures
        unify_seq(depth, xs, ys, s) matches Some(r) ==> r.state.cache == s.cache && is_acyclic(
            r.state,
        ),
{
    lemma_all_plain_are_rowless(xs, var_count(s));
    lemma_all_plain_are_rowless(ys, var_count(s));
    lemma_plain_state_is_rowless(s);
    law_all_stay_acyclic(depth, xs, ys, s);
}

/// Plain types unify exactly if some substitution that respects the bindings makes them equal, and
/// the bindings found are the most general ones: after a success, the substitutions that respect
/// them are exactly those that respected the bindings before and make the types equal.
pub proof fn law_unifies_if_solvable(depth: nat, a: Ty, b: Ty, s: State)
    requires
        is_plain_problem(a, b, s),
        unify_types(depth, a, b, s) is Some,
    ensures
        unify_types(depth, a, b, s)->0.ok <==> exists|f: Substitution| #[trigger]
            respects(f, s) && unifies(f, a, b),
        unify_types(depth, a, b, s)->0.ok ==> forall|f: Substitution| #[trigger]
            respects(f, unify_types(depth, a, b, s)->0.state) <==> respects(f, s) && unifies(
                f,
                a,
                b,
            ),
{
    let r = unify_types(depth, a, b, s)->0;
    assert forall|f: Substitution|
        (respects(f, s) && unifies(f, a, b) ==> r.ok) && (r.ok ==> (#[trigger] respects(f, r.state)
            <==> respects(f, s) && unifies(f, a, b))) by {
        lemma_unify_solves(depth, a, b, s, f);
        if respects(f, r.state) {
            lemma_respects_earlier(f, s, r.state);
        }
    }
    if r.ok {
        lemma_stays_acyclic(depth, a, b, s);
        lemma_unify_solves(depth, a, b, s, |v: TypeVariableId| Ty::Variable(v));
        lemma_resolution_respects(r.state);
        let f = resolution(r.state);
        assert(respects(f, s) && unifies(f, a, b));
    } else {
        assert forall|f: Substitution| !(#[trigger] respects(f, s) && unifies(f, a, b)) by {
            lemma_unify_solves(depth, a, b, s, f);
        }
    }
}

/// The same holds of unifying lists of plain types, pair by pair: if no one substitution makes the
/// types of all pairs equal, that is an error. All bindings given to it stay as they were, and for
/// empty lists nothing is added to them.
pub proof fn law_all_unify_if_solvable(xs: Seq<Ty>, ys: Seq<Ty>, s: State)
    requires
        is_plain_problem_of_all(xs, ys, s),
        unification_of_all(xs, ys, s) is Some,
    ensures
        unification_of_all(xs, ys, s)->0.ok <==> exists|f: Substitution| #[trigger]
            respects(f, s) && unifies_all(f, xs, ys),
        unification_of_all(xs, ys, s)->0.ok ==> forall|f: Substitution| #[trigger]
            respects(f, unification_of_all(xs, ys, s)->0.state) <==> respects(f, s) && unifies_all(
                f,
                xs,
                ys,
            ),
        forall|k: usize| #[trigger]
            s.solution.types.contains_key(k) ==> {
                let types = unification_of_all(xs, ys, s)->0.state.solution.types;
                types.contains_key(k) && types[k] == s.solution.types[k]
            },
        xs.len() == 0 ==> unification_of_all(xs, ys, s)->0.state == s,
{
    let depth = MAX_DEPTH as nat;
    let r = unify_seq(depth, xs, ys, s)->0;
    assert forall|f: Substitution|
        (respects(f, s) && unifies_all(f, xs, ys) ==> r.ok) && (r.ok ==> (#[trigger] respects(
            f,
            r.state,
        ) <==> respects(f, s) && unifies_all(f, xs, ys))) by {
        lemma_seq_solves(depth, xs, ys, s, f);
        if respects(f, r.state) {
            lemma_respects_earlier(f, s, r.state);
        }
    }
    lemma_seq_solves(depth, xs, ys, s, |v: TypeVariableId| Ty::Variable(v));
    if r.ok {
        lemma_all_stay_acyclic(depth, xs, ys, s);
        lemma_resolution_respects(r.state);
        let f = resolution(r.state);
        assert(respects(f, s) && unifies_all(f, xs, ys));
    } else {
        assert forall|f: Substitution| !(#[trigger] respects(f, s) && unifies_all(f, xs, ys)) by {
            lemma_seq_solves(depth, xs, ys, s, f);
        }
    }
}

/// Plain types that were unified resolve to the same type under the bindings found, and both can
/// be resolved.
pub proof fn law_unified_types_are_equal(depth: nat, a: Ty, b: Ty, s: State)
    requires
        is_plain_problem(a, b, s),
        unify_types(depth, a, b, s) matches Some(r) && r.ok,
    ensures
        same_when_resolved(a, b, unify_types(depth, a, b, s)->0.state),
{
    let r = unify_types(depth, a, b, s)->0;
    let f = resolution(r.state);
    lemma_stays_acyclic(depth, a, b, s);
    lemma_unify_solves(depth, a, b, s, f);
    lemma_resolution_respects(r.state);
    lemma_same_when_resolved(a, b, r.state);
}

/// Plain types that were unified pair by pair resolve to the same types.
pub proof fn law_all_unified_are_equal(xs: Seq<Ty>, ys: Seq<Ty>, s: State, i: int)
    requires
        is_plain_problem_of_all(xs, ys, s),
        unification_of_all(xs, ys, s) matches Some(r) && r.ok,
        0 <= i < xs.len(),
        i < ys.len(),
    ensures
        same_when_resolved(xs[i], ys[i], unification_of_all(xs, ys, s)->0.state),
{
    let r = unification_of_all(xs, ys, s)->0;
    let f = resolution(r.state);
    lemma_all_stay_acyclic(MAX_DEPTH as nat, xs, ys, s);
    lemma_seq_solves(MAX_DEPTH as nat, xs, ys, s, f);
    lemma_resolution_respects(r.state);
    assert(unifies(f, xs[i], ys[i]));
    lemma_same_when_resolved(xs[i], ys[i], r.state);
}

/// Whether both types can be resolved, and come to the same type.
pub open spec fn same_when_resolved(a: Ty, b: Ty, s: State) -> bool {
    &&& exists|d: nat| #[trigger] resolved(d, a, s) is Some
    &&& exists|d: nat| #[trigger] resolved(d, b, s) is Some
    &&& forall|d: nat, e: nat|
        (#[trigger] resolved(d, a, s)) is Some && (#[trigger] resolved(e, b, s)) is Some
            ==> resolved(d, a, s) == resolved(e, b, s)
}

proof fn lemma_same_when_resolved(a: Ty, b: Ty, s: State)
    requires
        is_plain_problem(a, b, s),
        unifies(resolution(s), a, b),
    ensures
        same_when_resolved(a, b, s),
{
    law_acyclic_resolves(a, s);
    law_acyclic_resolves(b, s);
    assert forall|d: nat, e: nat|
        (#[trigger] resolved(d, a, s)) is Some && (#[trigger] resolved(
            e,
            b,
            s,
        )) is Some implies resolved(d, a, s) == resolved(e, b, s) by {
        lemma_resolved_is_applied(d, a, s);
        lemma_resolved_is_applied(e, b, s);
    }
}

/// A type in which a variable stands is larger than the variable, however both are replaced.
proof fn lemma_mentioned_is_smaller(t: Ty, n: nat, v: TypeVariableId, f: Substitution)
    requires
        is_plain(t, n),
        mentions(t, v),
    ensures
        size(f(v)) <= size(apply(f, t)),
        !(t is Variable) ==> size(f(v)) < size(apply(f, t)),
    decreases t,
{
    match t {
        Ty::Function { parameters, return_type, environment, effects, .. } => {
            if mentions(*return_type, v) {
                lemma_mentioned_is_smaller(*return_type, n, v, f);
            } else if mentions(*environment, v) {
                lemma_mentioned_is_smaller(*environment, n, v, f);
            } else if mentions(*effects, v) {
                lemma_mentioned_is_smaller(*effects, n, v, f);
            } else {
                let i = choose|i: int|
                    0 <= i < parameters.len() && mentions(#[trigger] parameters[i], v);
                lemma_mentioned_is_smaller(parameters[i], n, v, f);
                lemma_apply_all(f, parameters);
                lemma_size_of_all(apply_all(f, parameters), i);
            }
        },
        Ty::Application(constructor, args) => {
            if mentions(*constructor, v) {
                lemma_mentioned_is_smaller(*constructor, n, v, f);
            } else {
                let i = choose|i: int| 0 <= i < args.len() && mentions(#[trigger] args[i], v);
                lemma_mentioned_is_smaller(args[i], n, v, f);
                lemma_apply_all(f, args);
                lemma_size_of_all(apply_all(f, args), i);
            }
        },
        Ty::Ref { sharedness, mutability, lifetime } => {
            if mentions(*sharedness, v) {
                lemma_mentioned_is_smaller(*sharedness, n, v, f);
            } else if mentions(*mutability, v) {
                lemma_mentioned_is_smaller(*mutability, n, v, f);
            } else {
                lemma_mentioned_is_smaller(*lifetime, n, v, f);
            }
        },
        _ => {},
    }
}

/// A variable does not unify with another type in which it stands: no finite type would do.
pub proof fn law_no_infinite_type(depth: nat, v: TypeVariableId, t: Ty, s: State)
    requires
        is_plain_problem(Ty::Variable(v), t, s),
        !(t is Variable),
        mentions(t, v),
        unify_types(depth, Ty::Variable(v), t, s) is Some,
    ensures
        !unify_types(depth, Ty::Variable(v), t, s)->0.ok,
{
    law_unifies_if_solvable(depth, Ty::Variable(v), t, s);
    assert forall|f: Substitution| !(#[trigger] respects(f, s) && unifies(
        f,
        Ty::Variable(v),
        t,
    )) by {
        lemma_mentioned_is_smaller(t, var_count(s), v, f);
    }
}

/// Whether neither the types nor anything that a variable is bound to has rows of fields or of
/// effects, and there are no cycles.
pub open spec fn is_rowless_problem(a: Ty, b: Ty, s: State) -> bool {
    &&& is_rowless(a, var_count(s))
    &&& is_rowless(b, var_count(s))
    &&& is_rowless_state(s)
    &&& is_acyclic(s)
}

/// Trying to unify types without rows, with no bindings to begin with, leaves the cache as it was,
/// and the bindings found are of variables that the cache leaves unbound. Following them and those
/// of the cache never leads from a variable back to it.
pub proof fn law_found_bindings_are_acyclic(a: Ty, b: Ty, c: Cache)
    requires
        is_rowless_problem(a, b, committed(c)),
        fresh_unification(a, b, c) is Some,
    ensures
        fresh_unification(a, b, c)->0.state.cache == c,
        is_proper(fresh_unification(a, b, c)->0.state),
        is_acyclic(fresh_unification(a, b, c)->0.state),
{
    let s = committed(c);
    law_unify_stays_acyclic(MAX_DEPTH as nat, a, b, s);
    law_unify_keeps(MAX_DEPTH as nat, a, b, s);
    assert(is_proper(s));
}

/// Plain types that resolve to the same type unify, and nothing is bound by it.
pub proof fn law_equal_types_bind_nothing(depth: nat, a: Ty, b: Ty, s: State)
    requires
        is_plain_problem(a, b, s),
        unifies(resolution(s), a, b),
        unify_types(depth, a, b, s) is Some,
    ensures
        changes_nothing(unify_types(depth, a, b, s), s),
    decreases depth, 0nat, 0nat,
{
    let d = (depth - 1) as nat;
    let f = resolution(s);
    match (a, b) {
        (Ty::Variable(id), _) => lemma_equal_variable(d, id, b, true, s),
        (_, Ty::Variable(id)) => lemma_equal_variable(d, id, a, false, s),
        (
            Ty::Function { parameters, return_type, environment, effects, .. },
            Ty::Function {
                parameters: parameters2,
                return_type: return_type2,
                environment: environment2,
                effects: effects2,
                ..
            },
        ) => {
            lemma_equal_lists(f, parameters, parameters2);
            lemma_equal_seq(d, parameters, parameters2, s);
            law_equal_types_bind_nothing(d, *return_type2, *return_type, s);
            law_equal_types_bind_nothing(d, *environment, *environment2, s);
            law_equal_types_bind_nothing(d, *effects, *effects2, s);
        },
        (Ty::Application(c1, args1), Ty::Application(c2, args2)) => {
            lemma_equal_lists(f, args1, args2);
            law_equal_types_bind_nothing(d, *c1, *c2, s);
            lemma_equal_seq(d, args1, args2, s);
        },
        (
            Ty::Ref { sharedness, mutability, lifetime },
            Ty::Ref { sharedness: sharedness2, mutability: mutability2, lifetime: lifetime2 },
        ) => {
            law_equal_types_bind_nothing(d, *sharedness, *sharedness2, s);
            law_equal_types_bind_nothing(d, *mutability, *mutability2, s);
            law_equal_types_bind_nothing(d, *lifetime, *lifetime2, s);
        },
        _ => {},
    }
}

proof fn lemma_equal_seq(depth: nat, xs: Seq<Ty>, ys: Seq<Ty>, s: State)
    requires
        is_plain_problem_of_all(xs, ys, s),
        unifies_all(resolution(s), xs, ys),
        unify_seq(depth, xs, ys, s) is Some,
    ensures
        changes_nothing(unify_seq(depth, xs, ys, s), s),
    decreases depth, 1nat, xs.len(),
{
    if xs.len() > 0 && ys.len() > 0 {
        let xs1 = xs.skip(1);
        let ys1 = ys.skip(1);
        let f = resolution(s);
        assert(unifies(f, xs[0], ys[0]));
        law_equal_types_bind_nothing(depth, xs[0], ys[0], s);
        assert forall|i: int| 0 <= i < xs1.len() implies is_plain(
            #[trigger] xs1[i],
            var_count(s),
        ) by {
            assert(xs1[i] == xs[i + 1]);
        }
        assert forall|i: int| 0 <= i < ys1.len() implies is_plain(
            #[trigger] ys1[i],
            var_count(s),
        ) by {
            assert(ys1[i] == ys[i + 1]);
        }
        assert forall|i: int| 0 <= i < xs1.len() && i < ys1.len() implies unifies(
            f,
            #[trigger] xs1[i],
            ys1[i],
        ) by {
            assert(unifies(f, xs[i + 1], ys[i + 1]));
        }
        lemma_equal_seq(depth, xs1, ys1, s);
    }
}

proof fn lemma_equal_variable(depth: nat, id: TypeVariableId, b: Ty, on_lhs: bool, s: State)
    requires
        is_plain_problem(Ty::Variable(id), b, s),
        unifies(resolution(s), Ty::Variable(id), b),
        unify_variable(depth, id, Ty::Variable(id), b, on_lhs, s) is Some,
    ensures
        changes_nothing(unify_variable(depth, id, Ty::Variable(id), b, on_lhs, s), s),
    decreases depth, 1nat, 0nat,
{
    let f = resolution(s);
    lemma_resolution_respects(s);
    match s.binding_of(id) {
        None => {},
        Some(Binding::Bound(t)) => {
            assert(f(id) == apply(f, t));
            if on_lhs {
                law_equal_types_bind_nothing(depth, t, b, s);
            } else {
                law_equal_types_bind_nothing(depth, b, t, s);
            }
        },
        Some(Binding::Unbound(_, _)) => {
            let types = s.solution.types;
            let vars = s.cache.type_bindings;
            lemma_follow(MAX_DEPTH as nat, b, s, f);
            law_follow_ends(MAX_DEPTH as nat, b, types, vars);
            let end = follow(MAX_DEPTH as nat, b, types, vars)->0;
            assert(s.is_unbound(id));
            if let Ty::Variable(w) = end {
                assert(s.is_unbound(w));
            }
        },
    }
}

/// Where the same variables are bound to the same types, following bindings leads the same ways.
proof fn lemma_same_ways(n: nat, v: TypeVariableId, w: TypeVariableId, s: State, r: State)
    requires
        forall|x: TypeVariableId, y: TypeVariableId| #[trigger]
            points_to(x, y, r) ==> points_to(x, y, s),
        leads(n, v, w, r),
    ensures
        leads(n, v, w, s),
    decreases n,
{
    if n > 0 {
        let x = choose|x: TypeVariableId| #[trigger]
            points_to(v, x, r) && leads((n - 1) as nat, x, w, r);
        lemma_same_ways((n - 1) as nat, x, w, s, r);
        assert(points_to(v, x, s));
    }
}

/// What was unified stays so once the bindings are committed to the cache: the problem is plain
/// and without cycles still, and the types come to the same.
proof fn lemma_committed_is_equal(a: Ty, b: Ty, c: Cache)
    requires
        is_plain_problem(a, b, committed(c)),
        fresh_unification(a, b, c) matches Some(r) && r.ok,
        c.type_bindings.len() <= usize::MAX,
    ensures
        ({
            let r = fresh_unification(a, b, c)->0;
            let s = committed(r.state.cache.perform(r.state.solution));
            is_plain_problem(a, b, s) && unifies(resolution(s), a, b)
        }),
{
    let s0 = committed(c);
    let r = fresh_unification(a, b, c)->0;
    let s = committed(r.state.cache.perform(r.state.solution));
    let depth = MAX_DEPTH as nat;
    let f = resolution(s);
    lemma_stays_acyclic(depth, a, b, s0);
    assert(is_proper(s0));
    law_unify_keeps(depth, a, b, s0);
    lemma_unify_solves(depth, a, b, s0, f);
    assert(var_count(s) == var_count(r.state)) by {
        let bound = bind_all(r.state.cache.type_bindings, r.state.solution.types);
        crate::occurs_laws::law_lowering_only_lowers(bound, r.state.solution.levels);
    }
    assert forall|v: TypeVariableId|
        ((#[trigger] s.binding_of(v)) matches Some(Binding::Bound(_))) == (r.state.binding_of(
            v,
        ) matches Some(Binding::Bound(_))) && (s.binding_of(v) matches Some(Binding::Bound(_))
            ==> s.binding_of(v) == r.state.binding_of(v)) by {
        lemma_commit_hops(r.state, Ty::Variable(v));
        assert(hop(Ty::Variable(v), s) == hop(Ty::Variable(v), r.state));
    }
    assert forall|v: TypeVariableId|
        (#[trigger] s.binding_of(v)) matches Some(Binding::Bound(t)) implies is_plain(
        s.binding_of(v)->0->Bound_0,
        var_count(s),
    ) by {
        assert(r.state.binding_of(v) == s.binding_of(v));
    }
    assert forall|n: nat, v: TypeVariableId| n > 0 implies !#[trigger] leads(n, v, v, s) by {
        if leads(n, v, v, s) {
            assert forall|x: TypeVariableId, y: TypeVariableId| #[trigger]
                points_to(x, y, s) implies points_to(x, y, r.state) by {
                assert(s.binding_of(x) == r.state.binding_of(x));
            }
            lemma_same_ways(n, v, v, r.state, s);
        }
    }
    lemma_resolution_respects(s);
    assert forall|v: TypeVariableId|
        (#[trigger] r.state.binding_of(v)) matches Some(Binding::Bound(t)) implies f(v) == apply(
        f,
        r.state.binding_of(v)->0->Bound_0,
    ) by {
        assert(s.binding_of(v) == r.state.binding_of(v));
    }
}

/// Unifying plain types that were unified before, in the same or in reverse order, reports nothing
/// and leaves the cache as it is: what was found the first time is remembered there.
pub proof fn law_unify_again(
    a: Ty,
    b: Ty,
    location: Location,
    reason: Reason,
    again: Location,
    reason_again: Reason,
    c: Cache,
)
    requires
        is_plain_problem(a, b, committed(c)),
        fresh_unification(a, b, c) matches Some(r) && r.ok,
        c.type_bindings.len() <= usize::MAX,
    ensures
        after_unify(a, b, location, reason, c) matches Some(c1) && {
            &&& fresh_unification(a, b, c1) is Some ==> after_unify(a, b, again, reason_again, c1)
                == Some(c1)
            &&& fresh_unification(b, a, c1) is Some ==> after_unify(b, a, again, reason_again, c1)
                == Some(c1)
        },
{
    let r = fresh_unification(a, b, c)->0;
    let c1 = r.state.cache.perform(r.state.solution);
    let s = committed(c1);
    lemma_committed_is_equal(a, b, c);
    assert(bind_all(c1.type_bindings, Map::empty()) =~= c1.type_bindings);
    assert(c1.perform(Solution::empty()) =~= c1);
    if fresh_unification(a, b, c1) is Some {
        law_equal_types_bind_nothing(MAX_DEPTH as nat, a, b, s);
    }
    if fresh_unification(b, a, c1) is Some {
        law_equal_types_bind_nothing(MAX_DEPTH as nat, b, a, s);
    }
}

} // verus!
