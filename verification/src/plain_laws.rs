//! Unification of plain types solves equations: it succeeds exactly where some substitution makes
//! the types equal, and every such substitution respects the bindings that it finds.

use crate::bindings::Solution;
use crate::cache::Binding;
use crate::occurs::occurs_in;
use crate::occurs_laws::{law_occurs_reaches, reaches, reaches_through};
use crate::plain::{
    all_plain, apply, apply_all, is_plain, is_plain_state, lemma_apply_all, lemma_size_of_all,
    respects, size, size_of_all, unifies, unifies_all, var_count, Substitution,
};
use crate::resolve::{follow, MAX_DEPTH};
use crate::types::{Ty, TypeVariableId};
use crate::unify::{unify_seq, unify_types, unify_variable, State, Step, RECURSION_LIMIT};
use vstd::prelude::*;

verus! {

/// Whether the state has all the bindings of an earlier one as they were, has the same cache and
/// is plain still.
pub open spec fn only_binds(before: State, after: State) -> bool {
    &&& after.cache == before.cache
    &&& is_plain_state(after)
    &&& forall|v: TypeVariableId| (#[trigger] before.binding_of(v)) is Some
        && before.binding_of(v)->0 is Bound ==> after.binding_of(v) == before.binding_of(v)
    &&& forall|k: usize| #[trigger]
        before.solution.types.contains_key(k) ==> after.solution.types.contains_key(k)
            && after.solution.types[k] == before.solution.types[k]
}

/// Whether the step, if it came to an end, binds only, and solves what the substitution says:
/// a substitution that respects the bindings found after a success makes the types equal, and one
/// that respected the bindings before and makes the types equal respects those found, after a
/// success.
pub open spec fn solves(f: Substitution, equal: bool, s: State, step: Option<Step>) -> bool {
    step matches Some(r) ==> {
        &&& only_binds(s, r.state)
        &&& r.ok && respects(f, r.state) ==> equal
        &&& respects(f, s) && equal ==> r.ok && respects(f, r.state)
    }
}

/// Unifying plain types only binds, whether or not an error follows: the bindings that there were
/// stay as they were, in the cache and in the solution.
pub proof fn law_bindings_stay(depth: nat, a: Ty, b: Ty, s: State)
    requires
        is_plain(a, var_count(s)),
        is_plain(b, var_count(s)),
        is_plain_state(s),
    ensures
        unify_types(depth, a, b, s) matches Some(r) ==> only_binds(s, r.state),
{
    lemma_unify_solves(depth, a, b, s, |v: TypeVariableId| Ty::Variable(v));
}

/// A substitution that respects later bindings respects the earlier ones.
pub proof fn lemma_respects_earlier(f: Substitution, before: State, after: State)
    requires
        only_binds(before, after),
        respects(f, after),
    ensures
        respects(f, before),
{
    assert forall|v: TypeVariableId|
        (#[trigger] before.binding_of(v)) matches Some(Binding::Bound(b)) implies f(v) == apply(
        f,
        before.binding_of(v)->0->Bound_0,
    ) by {
        assert(after.binding_of(v) == before.binding_of(v));
    }
}

proof fn lemma_only_binds_further(a: State, b: State, c: State)
    requires
        only_binds(a, b),
        only_binds(b, c),
    ensures
        only_binds(a, c),
{
    assert forall|v: TypeVariableId| (#[trigger] a.binding_of(v)) is Some && a.binding_of(
        v,
    )->0 is Bound implies c.binding_of(v) == a.binding_of(v) by {
        assert(b.binding_of(v) == a.binding_of(v));
    }
    assert forall|k: usize| #[trigger] a.solution.types.contains_key(k) implies
        c.solution.types.contains_key(k) && c.solution.types[k] == a.solution.types[k] by {
        assert(b.solution.types.contains_key(k));
    }
}

/// What a type stands for is plain as it is, and comes to the same.
pub proof fn lemma_follow(depth: nat, t: Ty, s: State, f: Substitution)
    requires
        is_plain(t, var_count(s)),
        is_plain_state(s),
        follow(depth, t, s.solution.types, s.cache.type_bindings) is Some,
    ensures
        is_plain(
            follow(depth, t, s.solution.types, s.cache.type_bindings)->0,
            var_count(s),
        ),
        respects(f, s) ==> unifies(
            f,
            follow(depth, t, s.solution.types, s.cache.type_bindings)->0,
            t,
        ),
    decreases depth,
{
    if let Ty::Variable(v) = t {
        if let Some(Binding::Bound(b)) = s.binding_of(v) {
            lemma_follow((depth - 1) as nat, b, s, f);
        }
    }
}

/// What is reached from a type is no larger than the type, and smaller than one that is no
/// variable, once all variables are replaced.
proof fn lemma_reached_is_smaller(
    n: nat,
    t: Ty,
    v: TypeVariableId,
    s: State,
    f: Substitution,
)
    requires
        is_plain(t, var_count(s)),
        is_plain_state(s),
        respects(f, s),
        reaches(n, t, v, s.solution.types, s.cache.type_bindings),
    ensures
        size(f(v)) <= size(apply(f, t)),
        !(t is Variable) ==> size(f(v)) < size(apply(f, t)),
    decreases n, 0nat,
{
    let m = (n - 1) as nat;
    let types = s.solution.types;
    let vars = s.cache.type_bindings;
    match t {
        Ty::Variable(w) => {
            assert(reaches_through(m, w, v, types, vars));
            if let Some(Binding::Bound(b)) = s.binding_of(w) {
                lemma_reached_is_smaller(m, b, v, s, f);
            }
        },
        Ty::Function { parameters, return_type, environment, effects, .. } => {
            if reaches(m, *return_type, v, types, vars) {
                lemma_reached_is_smaller(m, *return_type, v, s, f);
            } else if reaches(m, *environment, v, types, vars) {
                lemma_reached_is_smaller(m, *environment, v, s, f);
            } else if reaches(m, *effects, v, types, vars) {
                lemma_reached_is_smaller(m, *effects, v, s, f);
            } else {
                lemma_reached_in_all(m, parameters, v, s, f);
            }
        },
        Ty::Application(constructor, args) => {
            if reaches(m, *constructor, v, types, vars) {
                lemma_reached_is_smaller(m, *constructor, v, s, f);
            } else {
                lemma_reached_in_all(m, args, v, s, f);
            }
        },
        Ty::Ref { sharedness, mutability, lifetime } => {
            if reaches(m, *sharedness, v, types, vars) {
                lemma_reached_is_smaller(m, *sharedness, v, s, f);
            } else if reaches(m, *mutability, v, types, vars) {
                lemma_reached_is_smaller(m, *mutability, v, s, f);
            } else {
                lemma_reached_is_smaller(m, *lifetime, v, s, f);
            }
        },
        _ => {},
    }
}

proof fn lemma_reached_in_all(n: nat, ts: Seq<Ty>, v: TypeVariableId, s: State, f: Substitution)
    requires
        all_plain(ts, var_count(s)),
        is_plain_state(s),
        respects(f, s),
        exists|i: int|
            0 <= i < ts.len() && reaches(
                n,
                #[trigger] ts[i],
                v,
                s.solution.types,
                s.cache.type_bindings,
            ),
    ensures
        size(f(v)) <= size_of_all(apply_all(f, ts)),
    decreases n, 1nat,
{
    let i = choose|i: int|
        0 <= i < ts.len() && reaches(
            n,
            #[trigger] ts[i],
            v,
            s.solution.types,
            s.cache.type_bindings,
        );
    lemma_reached_is_smaller(n, ts[i], v, s, f);
    lemma_apply_all(f, ts);
    lemma_size_of_all(apply_all(f, ts), i);
}

/// Lists come to the same exactly if they have one length and their types come to the same.
pub proof fn lemma_equal_lists(f: Substitution, xs: Seq<Ty>, ys: Seq<Ty>)
    ensures
        apply_all(f, xs) == apply_all(f, ys) <==> xs.len() == ys.len() && unifies_all(f, xs, ys),
{
    lemma_apply_all(f, xs);
    lemma_apply_all(f, ys);
    if apply_all(f, xs) == apply_all(f, ys) {
        assert forall|i: int| 0 <= i < xs.len() && i < ys.len() implies unifies(
            f,
            #[trigger] xs[i],
            ys[i],
        ) by {
            assert(apply_all(f, xs)[i] == apply(f, xs[i]));
            assert(apply_all(f, ys)[i] == apply(f, ys[i]));
        }
    }
    if xs.len() == ys.len() && unifies_all(f, xs, ys) {
        assert forall|i: int| 0 <= i < xs.len() implies #[trigger] apply_all(f, xs)[i]
            == apply_all(f, ys)[i] by {
            assert(unifies(f, xs[i], ys[i]));
        }
        assert(apply_all(f, xs) =~= apply_all(f, ys));
    }
}

/// Unification of plain types solves the equation between them.
pub proof fn lemma_unify_solves(depth: nat, a: Ty, b: Ty, s: State, f: Substitution)
    requires
        is_plain(a, var_count(s)),
        is_plain(b, var_count(s)),
        is_plain_state(s),
    ensures
        solves(f, unifies(f, a, b), s, unify_types(depth, a, b, s)),
    decreases depth, 0nat, 0nat,
{
    if depth > 0 && unify_types(depth, a, b, s) is Some {
        let d = (depth - 1) as nat;
        match (a, b) {
            (Ty::Variable(id), _) => lemma_variable_solves(d, id, b, true, s, f),
            (_, Ty::Variable(id)) => lemma_variable_solves(d, id, a, false, s, f),
            (
                Ty::Function { parameters, return_type, environment, effects, .. },
                Ty::Function {
                    parameters: parameters2,
                    return_type: return_type2,
                    environment: environment2,
                    effects: effects2,
                    ..
                },
            ) => {
                lemma_equal_lists(f, parameters, parameters2);
                if parameters.len() == parameters2.len() {
                    lemma_seq_solves(d, parameters, parameters2, s, f);
                    let r1 = unify_seq(d, parameters, parameters2, s)->0;
                    if r1.ok {
                        let s1 = r1.state;
                        lemma_unify_solves(d, *return_type2, *return_type, s1, f);
                        let r2 = unify_types(d, *return_type2, *return_type, s1)->0;
                        let s2 = r2.state;
                        lemma_only_binds_further(s, s1, s2);
                        if r2.ok {
                            lemma_unify_solves(d, *environment, *environment2, s2, f);
                            let r3 = unify_types(d, *environment, *environment2, s2)->0;
                            let s3 = r3.state;
                            lemma_only_binds_further(s, s2, s3);
                            if r3.ok {
                                lemma_unify_solves(d, *effects, *effects2, s3, f);
                                let r4 = unify_types(d, *effects, *effects2, s3)->0;
                                lemma_only_binds_further(s, s3, r4.state);
                                if respects(f, r4.state) {
                                    lemma_respects_earlier(f, s3, r4.state);
                                    lemma_respects_earlier(f, s2, s3);
                                    lemma_respects_earlier(f, s1, s2);
                                }
                            }
                        }
                    }
                }
            },
            (Ty::Application(c1, args1), Ty::Application(c2, args2)) => {
                lemma_equal_lists(f, args1, args2);
                lemma_unify_solves(d, *c1, *c2, s, f);
                let r1 = unify_types(d, *c1, *c2, s)->0;
                if r1.ok && args1.len() == args2.len() {
                    lemma_seq_solves(d, args1, args2, r1.state, f);
                    let r2 = unify_seq(d, args1, args2, r1.state)->0;
                    lemma_only_binds_further(s, r1.state, r2.state);
                    if respects(f, r2.state) {
                        lemma_respects_earlier(f, r1.state, r2.state);
                    }
                }
            },
            (
                Ty::Ref { sharedness, mutability, lifetime },
                Ty::Ref { sharedness: sharedness2, mutability: mutability2, lifetime: lifetime2 },
            ) => {
                lemma_unify_solves(d, *sharedness, *sharedness2, s, f);
                let r1 = unify_types(d, *sharedness, *sharedness2, s)->0;
                let s1 = r1.state;
                if r1.ok {
                    lemma_unify_solves(d, *mutability, *mutability2, s1, f);
                    let r2 = unify_types(d, *mutability, *mutability2, s1)->0;
                    let s2 = r2.state;
                    lemma_only_binds_further(s, s1, s2);
                    if r2.ok {
                        lemma_unify_solves(d, *lifetime, *lifetime2, s2, f);
                        let r3 = unify_types(d, *lifetime, *lifetime2, s2)->0;
                        lemma_only_binds_further(s, s2, r3.state);
                        if respects(f, r3.state) {
                            lemma_respects_earlier(f, s2, r3.state);
                            lemma_respects_earlier(f, s1, s2);
                        }
                    }
                }
            },
            _ => {},
        }
    }
}

/// The same holds of unifying types pair by pair.
pub proof fn lemma_seq_solves(depth: nat, xs: Seq<Ty>, ys: Seq<Ty>, s: State, f: Substitution)
    requires
        all_plain(xs, var_count(s)),
        all_plain(ys, var_count(s)),
        is_plain_state(s),
    ensures
        solves(f, unifies_all(f, xs, ys), s, unify_seq(depth, xs, ys, s)),
    decreases depth, 1nat, xs.len(),
{
    if xs.len() > 0 && ys.len() > 0 && unify_seq(depth, xs, ys, s) is Some {
        let xs1 = xs.skip(1);
        let ys1 = ys.skip(1);
        lemma_unify_solves(depth, xs[0], ys[0], s, f);
        let r1 = unify_types(depth, xs[0], ys[0], s)->0;
        assert forall|i: int| 0 <= i < xs1.len() implies is_plain(
            #[trigger] xs1[i],
            var_count(s),
        ) by {
            assert(xs1[i] == xs[i + 1]);
        }
        assert forall|i: int| 0 <= i < ys1.len() implies is_plain(
            #[trigger] ys1[i],
            var_count(s),
        ) by {
            assert(ys1[i] == ys[i + 1]);
        }
        assert(unifies_all(f, xs, ys) <==> unifies(f, xs[0], ys[0]) && unifies_all(
            f,
            xs1,
            ys1,
        )) by {
            if unifies(f, xs[0], ys[0]) && unifies_all(f, xs1, ys1) {
                assert forall|i: int| 0 <= i < xs.len() && i < ys.len() implies unifies(
                    f,
                    #[trigger] xs[i],
                    ys[i],
                ) by {
                    if i > 0 {
                        assert(unifies(f, xs1[i - 1], ys1[i - 1]));
                    }
                }
            }
            if unifies_all(f, xs, ys) {
                assert forall|i: int| 0 <= i < xs1.len() && i < ys1.len() implies unifies(
                    f,
                    #[trigger] xs1[i],
                    ys1[i],
                ) by {
                    assert(unifies(f, xs[i + 1], ys[i + 1]));
                }
            }
        }
        if r1.ok {
            lemma_seq_solves(depth, xs1, ys1, r1.state, f);
            let r2 = unify_seq(depth, xs1, ys1, r1.state)->0;
            lemma_only_binds_further(s, r1.state, r2.state);
            if respects(f, r2.state) {
                lemma_respects_earlier(f, r1.state, r2.state);
            }
        }
    }
}

/// The same holds of unifying a variable with a type.
pub proof fn lemma_variable_solves(
    depth: nat,
    id: TypeVariableId,
    b: Ty,
    on_lhs: bool,
    s: State,
    f: Substitution,
)
    requires
        id.0 < var_count(s),
        is_plain(b, var_count(s)),
        is_plain_state(s),
    ensures
        solves(
            f,
            unifies(f, Ty::Variable(id), b),
            s,
            unify_variable(depth, id, Ty::Variable(id), b, on_lhs, s),
        ),
    decreases depth, 1nat, 0nat,
{
    let types = s.solution.types;
    let vars = s.cache.type_bindings;
    if unify_variable(depth, id, Ty::Variable(id), b, on_lhs, s) is Some {
        match s.binding_of(id) {
            None => {},
            Some(Binding::Bound(t)) => {
                if on_lhs {
                    lemma_unify_solves(depth, t, b, s, f);
                    let r = unify_types(depth, t, b, s)->0;
                    if respects(f, r.state) {
                        lemma_respects_earlier(f, s, r.state);
                    }
                } else {
                    lemma_unify_solves(depth, b, t, s, f);
                    let r = unify_types(depth, b, t, s)->0;
                    if respects(f, r.state) {
                        lemma_respects_earlier(f, s, r.state);
                    }
                }
            },
            Some(Binding::Unbound(level, _)) => {
                lemma_follow(MAX_DEPTH as nat, b, s, f);
                let end = follow(MAX_DEPTH as nat, b, types, vars)->0;
                if end != Ty::Variable(id) {
                    lemma_binding_solves(id, b, end, s, f);
                }
            },
        }
    }
}

/// Binding an unbound variable to what a type stands for solves the equation between them, and
/// where the variable occurs in the type there is no solution.
proof fn lemma_binding_solves(
    id: TypeVariableId,
    b: Ty,
    end: Ty,
    s: State,
    f: Substitution,
)
    requires
        is_plain(b, var_count(s)),
        is_plain_state(s),
        s.is_unbound(id),
        follow(MAX_DEPTH as nat, b, s.solution.types, s.cache.type_bindings) == Some(end),
        end != Ty::Variable(id),
    ensures
        solves(
            f,
            unifies(f, Ty::Variable(id), b),
            s,
            unify_variable(0, id, Ty::Variable(id), b, true, s),
        ),
{
    let types = s.solution.types;
    let vars = s.cache.type_bindings;
    lemma_follow(MAX_DEPTH as nat, b, s, f);
    let level = s.binding_of(id)->0->Unbound_0;
    let found = occurs_in(RECURSION_LIMIT as nat, id, level, end, types, vars);
    match found {
        None => {},
        Some((true, _)) => {
            if respects(f, s) {
                law_occurs_reaches(RECURSION_LIMIT as nat, id, level, end, types, vars);
                lemma_reached_is_smaller(RECURSION_LIMIT as nat, end, id, s, f);
                if let Ty::Variable(w) = end {
                    crate::resolve::law_follow_ends(MAX_DEPTH as nat, b, types, vars);
                    assert(reaches_through((RECURSION_LIMIT - 1) as nat, w, id, types, vars));
                }
            }
        },
        Some((false, levels)) => {
            let r = State {
                solution: Solution {
                    types: types.insert(id.0, end),
                    levels: s.solution.levels + levels,
                },
                cache: s.cache,
            };
            assert forall|v: TypeVariableId| #[trigger] r.binding_of(v) == if v == id {
                Some(Binding::Bound(end))
            } else {
                s.binding_of(v)
            } by {
                assert(s.binding_of(id) is Some);
            }
            assert(is_plain_state(r)) by {
                assert forall|v: TypeVariableId|
                    (#[trigger] r.binding_of(v)) matches Some(Binding::Bound(t)) implies is_plain(
                    r.binding_of(v)->0->Bound_0,
                    var_count(r),
                ) by {
                    assert(v != id ==> r.binding_of(v) == s.binding_of(v));
                }
            }
            assert(only_binds(s, r)) by {
                assert forall|v: TypeVariableId| (#[trigger] s.binding_of(v)) is Some
                    && s.binding_of(v)->0 is Bound implies r.binding_of(v) == s.binding_of(v) by {}
            }
            if respects(f, r) {
                lemma_respects_earlier(f, s, r);
                assert(r.binding_of(id) == Some(Binding::Bound(end)));
                assert(f(id) == apply(f, end));
            }
            if respects(f, s) && unifies(f, Ty::Variable(id), b) {
                assert forall|v: TypeVariableId|
                    (#[trigger] r.binding_of(v)) matches Some(Binding::Bound(t)) implies f(v)
                    == apply(f, r.binding_of(v)->0->Bound_0) by {
                    if v != id {
                        assert(s.binding_of(v) == r.binding_of(v));
                    }
                }
            }
        },
    }
}

} // verus!
