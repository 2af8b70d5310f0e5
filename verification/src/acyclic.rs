//! Bindings without cycles: following them never leads back to where it started, so that each
//! type can be resolved to one without bound variables. Unification keeps them so.

use crate::bindings::Solution;
use crate::cache::{lookup, Binding};
use crate::occurs::{occurs_in, occurs_in_seq, occurs_in_variable};
use crate::plain::{
    all_plain, apply, apply_all, is_plain, is_plain_state, lemma_apply_all, respects, var_count,
    Substitution,
};
use crate::resolve::{follow, MAX_DEPTH};
use crate::types::{LetBindingLevel, Ty, TypeVariableId};
use crate::unify::{unify_seq, unify_types, unify_variable, State, Step, RECURSION_LIMIT};
use vstd::prelude::*;
use vstd::set_lib::{lemma_int_range, lemma_len_subset, lemma_subset_equality, set_int_range};

verus! {

/// Whether the variable stands somewhere in the type, which has no rows.
pub open spec fn mentions(t: Ty, v: TypeVariableId) -> bool
    decreases t,
{
    match t {
        Ty::Variable(w) => v == w,
        Ty::NamedGeneric(w, _) => v == w,
        Ty::Function { parameters, return_type, environment, effects, .. } => {
            ||| exists|i: int| 0 <= i < parameters.len() && mentions(#[trigger] parameters[i], v)
            ||| mentions(*return_type, v)
            ||| mentions(*environment, v)
            ||| mentions(*effects, v)
        },
        Ty::Application(constructor, args) => {
            ||| mentions(*constructor, v)
            ||| exists|i: int| 0 <= i < args.len() && mentions(#[trigger] args[i], v)
        },
        Ty::Ref { sharedness, mutability, lifetime } => {
            ||| mentions(*sharedness, v)
            ||| mentions(*mutability, v)
            ||| mentions(*lifetime, v)
        },
        _ => false,
    }
}

/// Whether there are no rows of fields and no rows of effects in the type, and all its variables
/// are among the first `n`.
pub open spec fn is_rowless(t: Ty, n: nat) -> bool
    decreases t,
{
    match t {
        Ty::Primitive(_) => true,
        Ty::UserDefined(_) => true,
        Ty::Tag(_) => true,
        Ty::Variable(v) => v.0 < n,
        Ty::NamedGeneric(v, _) => v.0 < n,
        Ty::Function { parameters, return_type, environment, effects, has_varargs } => {
            &&& forall|i: int|
                0 <= i < parameters.len() ==> is_rowless(#[trigger] parameters[i], n)
            &&& is_rowless(*return_type, n)
            &&& is_rowless(*environment, n)
            &&& is_rowless(*effects, n)
        },
        Ty::Application(constructor, args) => {
            &&& is_rowless(*constructor, n)
            &&& forall|i: int| 0 <= i < args.len() ==> is_rowless(#[trigger] args[i], n)
        },
        Ty::Ref { sharedness, mutability, lifetime } => {
            &&& is_rowless(*sharedness, n)
            &&& is_rowless(*mutability, n)
            &&& is_rowless(*lifetime, n)
        },
        _ => false,
    }
}

/// Whether none of the types has rows.
pub open spec fn all_rowless(ts: Seq<Ty>, n: nat) -> bool {
    forall|i: int| 0 <= i < ts.len() ==> is_rowless(#[trigger] ts[i], n)
}

/// Whether nothing that a variable is bound to, by the cache or the solution, has rows.
pub open spec fn is_rowless_state(s: State) -> bool {
    forall|v: TypeVariableId|
        (#[trigger] s.binding_of(v)) matches Some(Binding::Bound(b)) ==> is_rowless(
            b,
            var_count(s),
        )
}

/// A plain type has no rows.
pub proof fn lemma_plain_is_rowless(t: Ty, n: nat)
    requires
        is_plain(t, n),
    ensures
        is_rowless(t, n),
    decreases t,
{
    match t {
        Ty::Function { parameters, return_type, environment, effects, .. } => {
            lemma_all_plain_are_rowless(parameters, n);
            lemma_plain_is_rowless(*return_type, n);
            lemma_plain_is_rowless(*environment, n);
            lemma_plain_is_rowless(*effects, n);
        },
        Ty::Application(constructor, args) => {
            lemma_plain_is_rowless(*constructor, n);
            lemma_all_plain_are_rowless(args, n);
        },
        Ty::Ref { sharedness, mutability, lifetime } => {
            lemma_plain_is_rowless(*sharedness, n);
            lemma_plain_is_rowless(*mutability, n);
            lemma_plain_is_rowless(*lifetime, n);
        },
        _ => {},
    }
}

/// Plain types have no rows.
pub proof fn lemma_all_plain_are_rowless(ts: Seq<Ty>, n: nat)
    requires
        all_plain(ts, n),
    ensures
        all_rowless(ts, n),
    decreases ts,
{
    assert forall|i: int| 0 <= i < ts.len() implies is_rowless(#[trigger] ts[i], n) by {
        lemma_plain_is_rowless(ts[i], n);
    }
}

/// Where all bindings are plain, nothing that is bound has rows.
pub proof fn lemma_plain_state_is_rowless(s: State)
    requires
        is_plain_state(s),
    ensures
        is_rowless_state(s),
{
    assert forall|v: TypeVariableId|
        (#[trigger] s.binding_of(v)) matches Some(Binding::Bound(b)) implies is_rowless(
        s.binding_of(v)->0->Bound_0,
        var_count(s),
    ) by {
        lemma_plain_is_rowless(s.binding_of(v)->0->Bound_0, var_count(s));
    }
}

/// Whether the first variable is bound to a type in which the second stands.
pub open spec fn points_to(v: TypeVariableId, w: TypeVariableId, s: State) -> bool {
    s.binding_of(v) matches Some(Binding::Bound(b)) && mentions(b, w)
}

/// Whether following bindings for `n` steps can lead from the one variable to the other.
pub open spec fn leads(n: nat, v: TypeVariableId, w: TypeVariableId, s: State) -> bool
    decreases n,
{
    if n == 0 {
        v == w
    } else {
        exists|x: TypeVariableId| #[trigger] points_to(v, x, s) && leads((n - 1) as nat, x, w, s)
    }
}

/// Whether following bindings never leads from a variable back to it.
pub open spec fn is_acyclic(s: State) -> bool {
    forall|n: nat, v: TypeVariableId| n > 0 ==> !#[trigger] leads(n, v, v, s)
}

/// A way can be continued.
proof fn lemma_leads_on(
    n: nat,
    m: nat,
    u: TypeVariableId,
    v: TypeVariableId,
    w: TypeVariableId,
    s: State,
)
    requires
        leads(n, u, v, s),
        leads(m, v, w, s),
    ensures
        leads(n + m, u, w, s),
    decreases n,
{
    if n > 0 {
        let x = choose|x: TypeVariableId| #[trigger]
            points_to(u, x, s) && leads((n - 1) as nat, x, v, s);
        lemma_leads_on((n - 1) as nat, m, x, v, w, s);
        assert((n - 1) as nat + m == (n + m - 1) as nat);
    }
}

/// Whether a variable that stands in the type leads to the given one.
pub open spec fn type_leads(t: Ty, w: TypeVariableId, s: State) -> bool {
    exists|n: nat, x: TypeVariableId| mentions(t, x) && #[trigger] leads(n, x, w, s)
}

/// Where the occurs check does not find an unbound variable, nothing in the type leads to it.
proof fn lemma_not_found(
    fuel: nat,
    id: TypeVariableId,
    level: LetBindingLevel,
    t: Ty,
    s: State,
    n: nat,
    x: TypeVariableId,
)
    requires
        s.is_unbound(id),
        is_rowless(t, var_count(s)),
        is_rowless_state(s),
        occurs_in(fuel, id, level, t, s.solution.types, s.cache.type_bindings) matches Some(
            (false, _),
        ),
        mentions(t, x),
    ensures
        !leads(n, x, id, s),
    decreases fuel, 0nat, 0nat,
{
    let f = (fuel - 1) as nat;
    let types = s.solution.types;
    let vars = s.cache.type_bindings;
    match t {
        Ty::Variable(v) | Ty::NamedGeneric(v, _) => {
            assert(occurs_in_variable(f, id, level, v, types, vars) matches Some((false, _)));
            if leads(n, x, id, s) && n > 0 {
                let y = choose|y: TypeVariableId| #[trigger]
                    points_to(x, y, s) && leads((n - 1) as nat, y, id, s);
                let b = s.binding_of(v)->0->Bound_0;
                lemma_not_found(f, id, level, b, s, (n - 1) as nat, y);
            }
        },
        Ty::Function { parameters, return_type, environment, effects, .. } => {
            if mentions(*return_type, x) {
                lemma_not_found(f, id, level, *return_type, s, n, x);
            } else if mentions(*environment, x) {
                lemma_not_found(f, id, level, *environment, s, n, x);
            } else if mentions(*effects, x) {
                lemma_not_found(f, id, level, *effects, s, n, x);
            } else {
                lemma_not_found_in_all(f, id, level, parameters, s, n, x);
            }
        },
        Ty::Application(constructor, args) => {
            if mentions(*constructor, x) {
                lemma_not_found(f, id, level, *constructor, s, n, x);
            } else {
                lemma_not_found_in_all(f, id, level, args, s, n, x);
            }
        },
        Ty::Ref { sharedness, mutability, lifetime } => {
            if mentions(*sharedness, x) {
                lemma_not_found(f, id, level, *sharedness, s, n, x);
            } else if mentions(*mutability, x) {
                lemma_not_found(f, id, level, *mutability, s, n, x);
            } else {
                lemma_not_found(f, id, level, *lifetime, s, n, x);
            }
        },
        _ => {},
    }
}

proof fn lemma_not_found_in_all(
    fuel: nat,
    id: TypeVariableId,
    level: LetBindingLevel,
    ts: Seq<Ty>,
    s: State,
    n: nat,
    x: TypeVariableId,
)
    requires
        s.is_unbound(id),
        all_rowless(ts, var_count(s)),
        is_rowless_state(s),
        occurs_in_seq(fuel, id, level, ts, s.solution.types, s.cache.type_bindings) matches Some(
            (false, _),
        ),
        exists|i: int| 0 <= i < ts.len() && mentions(#[trigger] ts[i], x),
    ensures
        !leads(n, x, id, s),
    decreases fuel, 1nat, ts.len(),
{
    let i = choose|i: int| 0 <= i < ts.len() && mentions(#[trigger] ts[i], x);
    let rest = ts.skip(1);
    if i == 0 {
        lemma_not_found(fuel, id, level, ts[0], s, n, x);
    } else {
        assert(rest[i - 1] == ts[i]);
        assert forall|j: int| 0 <= j < rest.len() implies is_rowless(
            #[trigger] rest[j],
            var_count(s),
        ) by {
            assert(rest[j] == ts[j + 1]);
        }
        lemma_not_found_in_all(fuel, id, level, rest, s, n, x);
    }
}

/// A way by way of a new binding of `id` was there before, or goes through that binding once.
proof fn lemma_new_way(
    n: nat,
    v: TypeVariableId,
    w: TypeVariableId,
    id: TypeVariableId,
    end: Ty,
    s: State,
    r: State,
)
    requires
        forall|x: TypeVariableId| #[trigger]
            r.binding_of(x) == if x == id {
                Some(Binding::Bound(end))
            } else {
                s.binding_of(x)
            },
        forall|m: nat, x: TypeVariableId| mentions(end, x) ==> !#[trigger] leads(m, x, id, s),
        leads(n, v, w, r),
    ensures
        (exists|m: nat| #[trigger] leads(m, v, w, s) && (n > 0 ==> m > 0)) || (exists|m: nat|
            #[trigger] leads(m, v, id, s)) && type_leads(end, w, s),
    decreases n,
{
    if n == 0 {
        assert(leads(0, v, w, s));
    } else {
        let k = (n - 1) as nat;
        let x = choose|x: TypeVariableId| #[trigger] points_to(v, x, r) && leads(k, x, w, r);
        lemma_new_way(k, x, w, id, end, s, r);
        assert(r.binding_of(v) == if v == id {
            Some(Binding::Bound(end))
        } else {
            s.binding_of(v)
        });
        if v == id {
            assert(mentions(end, x));
            assert(leads(0, v, id, s));
            if exists|m: nat| #[trigger] leads(m, x, w, s) && (k > 0 ==> m > 0) {
                let m = choose|m: nat| #[trigger] leads(m, x, w, s) && (k > 0 ==> m > 0);
                assert(leads(m, x, w, s));
                assert(type_leads(end, w, s));
            } else {
                let m = choose|m: nat| #[trigger] leads(m, x, id, s);
                assert(!leads(m, x, id, s));
            }
        } else {
            assert(points_to(v, x, s));
            if exists|m: nat| #[trigger] leads(m, x, w, s) && (k > 0 ==> m > 0) {
                let m = choose|m: nat| #[trigger] leads(m, x, w, s) && (k > 0 ==> m > 0);
                assert((m + 1 - 1) as nat == m);
                assert(leads(m + 1, v, w, s));
            } else {
                let m = choose|m: nat| #[trigger] leads(m, x, id, s);
                assert((m + 1 - 1) as nat == m);
                assert(leads(m + 1, v, id, s));
            }
        }
    }
}

/// Binding a variable to a type in which nothing leads to it makes no cycle.
proof fn lemma_binding_is_acyclic(id: TypeVariableId, end: Ty, s: State, r: State)
    requires
        is_acyclic(s),
        forall|x: TypeVariableId| #[trigger]
            r.binding_of(x) == if x == id {
                Some(Binding::Bound(end))
            } else {
                s.binding_of(x)
            },
        forall|m: nat, x: TypeVariableId| mentions(end, x) ==> !#[trigger] leads(m, x, id, s),
    ensures
        is_acyclic(r),
{
    assert forall|n: nat, v: TypeVariableId| n > 0 implies !#[trigger] leads(n, v, v, r) by {
        if leads(n, v, v, r) {
            lemma_new_way(n, v, v, id, end, s, r);
            if exists|m: nat| #[trigger] leads(m, v, v, s) && (n > 0 ==> m > 0) {
                let m = choose|m: nat| #[trigger] leads(m, v, v, s) && (n > 0 ==> m > 0);
                assert(!leads(m, v, v, s));
            } else {
                let m = choose|m: nat| #[trigger] leads(m, v, id, s);
                let (k, x) = choose|k: nat, x: TypeVariableId|
                    mentions(end, x) && #[trigger] leads(k, x, v, s);
                lemma_leads_on(k, m, x, v, id, s);
                assert(!leads(k + m, x, id, s));
            }
        }
    }
}

/// Whether the state has the same cache as an earlier one and all the bindings that that had, as
/// they were, and each binding that was added is of a variable that the cache leaves unbound. Still
/// nothing that is bound has rows.
pub open spec fn binds_unbound(before: State, after: State) -> bool {
    &&& after.cache == before.cache
    &&& is_rowless_state(after)
    &&& forall|k: usize| #[trigger]
        before.solution.types.contains_key(k) ==> after.solution.types.contains_key(k)
            && after.solution.types[k] == before.solution.types[k]
    &&& forall|k: usize| #[trigger]
        after.solution.types.contains_key(k) && !before.solution.types.contains_key(k) ==> lookup(
            before.cache.type_bindings,
            TypeVariableId(k),
        ) matches Some(Binding::Unbound(_, _))
}

/// Whether the step, if it came to an end, only bound variables that were unbound, and made no
/// cycle.
pub open spec fn step_binds(s: State, step: Option<Step>) -> bool {
    step matches Some(r) ==> binds_unbound(s, r.state) && (is_acyclic(s) ==> is_acyclic(r.state))
}

proof fn lemma_binds_further(a: State, b: State, c: State)
    requires
        binds_unbound(a, b),
        binds_unbound(b, c),
    ensures
        binds_unbound(a, c),
{
    assert forall|k: usize| #[trigger] a.solution.types.contains_key(k) implies
        c.solution.types.contains_key(k) && c.solution.types[k] == a.solution.types[k] by {
        assert(b.solution.types.contains_key(k));
    }
    assert forall|k: usize| #[trigger]
        c.solution.types.contains_key(k) && !a.solution.types.contains_key(k) implies lookup(
        a.cache.type_bindings,
        TypeVariableId(k),
    ) matches Some(Binding::Unbound(_, _)) by {
        if b.solution.types.contains_key(k) {
            assert(lookup(a.cache.type_bindings, TypeVariableId(k)) is Some);
        }
    }
}

/// Unifying types without rows only binds, whether or not they unify: the cache is left alone, the
/// bindings that there were stay as they were, and each one added is of a variable that the cache
/// leaves unbound. What the cache or the solution bound a variable to, it is bound to still.
pub proof fn law_rowless_bindings_stay(depth: nat, a: Ty, b: Ty, s: State)
    requires
        is_rowless(a, var_count(s)),
        is_rowless(b, var_count(s)),
        is_rowless_state(s),
    ensures
        unify_types(depth, a, b, s) matches Some(r) ==> {
            &&& binds_unbound(s, r.state)
            &&& forall|v: TypeVariableId|
                (#[trigger] s.binding_of(v)) is Some && s.binding_of(v)->0 is Bound
                    ==> r.state.binding_of(v) == s.binding_of(v)
        },
{
    lemma_unify_binds(depth, a, b, s);
}

/// The same holds of unifying types without rows pair by pair.
pub proof fn law_all_rowless_bindings_stay(depth: nat, xs: Seq<Ty>, ys: Seq<Ty>, s: State)
    requires
        all_rowless(xs, var_count(s)),
        all_rowless(ys, var_count(s)),
        is_rowless_state(s),
    ensures
        unify_seq(depth, xs, ys, s) matches Some(r) ==> binds_unbound(s, r.state),
{
    lemma_all_bind(depth, xs, ys, s);
}

/// Unifying types without rows makes no cycle, whether or not they unify: where following bindings
/// never led from a variable back to it, it does not afterwards. The cache is left alone.
pub proof fn law_unify_stays_acyclic(depth: nat, a: Ty, b: Ty, s: State)
    requires
        is_rowless(a, var_count(s)),
        is_rowless(b, var_count(s)),
        is_rowless_state(s),
        is_acyclic(s),
    ensures
        unify_types(depth, a, b, s) matches Some(r) ==> r.state.cache == s.cache && is_acyclic(
            r.state,
        ),
{
    lemma_unify_binds(depth, a, b, s);
}

/// Unifying types without rows pair by pair makes no cycle either.
pub proof fn law_all_stay_acyclic(depth: nat, xs: Seq<Ty>, ys: Seq<Ty>, s: State)
    requires
        all_rowless(xs, var_count(s)),
        all_rowless(ys, var_count(s)),
        is_rowless_state(s),
        is_acyclic(s),
    ensures
        unify_seq(depth, xs, ys, s) matches Some(r) ==> r.state.cache == s.cache && is_acyclic(
            r.state,
        ),
{
    lemma_all_bind(depth, xs, ys, s);
}

proof fn lemma_unify_binds(depth: nat, a: Ty, b: Ty, s: State)
    requires
        is_rowless(a, var_count(s)),
        is_rowless(b, var_count(s)),
        is_rowless_state(s),
    ensures
        step_binds(s, unify_types(depth, a, b, s)),
    decreases depth, 0nat, 0nat,
{
    if depth > 0 && unify_types(depth, a, b, s) is Some {
        let d = (depth - 1) as nat;
        match (a, b) {
            (Ty::Variable(id), _) => lemma_variable_binds(d, id, b, true, s),
            (_, Ty::Variable(id)) => lemma_variable_binds(d, id, a, false, s),
            (
                Ty::Function { parameters, return_type, environment, effects, .. },
                Ty::Function {
                    parameters: parameters2,
                    return_type: return_type2,
                    environment: environment2,
                    effects: effects2,
                    ..
                },
            ) => {
                lemma_all_bind(d, parameters, parameters2, s);
                if let Some(r1) = unify_seq(d, parameters, parameters2, s) {
                    if r1.ok {
                        let s1 = r1.state;
                        lemma_unify_binds(d, *return_type2, *return_type, s1);
                        if let Some(r2) = unify_types(d, *return_type2, *return_type, s1) {
                            let s2 = r2.state;
                            lemma_binds_further(s, s1, s2);
                            if r2.ok {
                                lemma_unify_binds(d, *environment, *environment2, s2);
                                let step = unify_types(d, *environment, *environment2, s2);
                                if let Some(r3) = step {
                                    let s3 = r3.state;
                                    lemma_binds_further(s, s2, s3);
                                    if r3.ok {
                                        lemma_unify_binds(d, *effects, *effects2, s3);
                                        let last = unify_types(d, *effects, *effects2, s3);
                                        if let Some(r4) = last {
                                            lemma_binds_further(s, s3, r4.state);
                                        }
                                    }
                                }
                            }
                        }
                    }
                }
            },
            (Ty::Application(c1, args1), Ty::Application(c2, args2)) => {
                lemma_unify_binds(d, *c1, *c2, s);
                let r1 = unify_types(d, *c1, *c2, s)->0;
                if r1.ok && args1.len() == args2.len() {
                    lemma_all_bind(d, args1, args2, r1.state);
                    let r2 = unify_seq(d, args1, args2, r1.state)->0;
                    lemma_binds_further(s, r1.state, r2.state);
                }
            },
            (
                Ty::Ref { sharedness, mutability, lifetime },
                Ty::Ref { sharedness: sharedness2, mutability: mutability2, lifetime: lifetime2 },
            ) => {
                lemma_unify_binds(d, *sharedness, *sharedness2, s);
                let r1 = unify_types(d, *sharedness, *sharedness2, s)->0;
                if r1.ok {
                    lemma_unify_binds(d, *mutability, *mutability2, r1.state);
                    let r2 = unify_types(d, *mutability, *mutability2, r1.state)->0;
                    lemma_binds_further(s, r1.state, r2.state);
                    if r2.ok {
                        lemma_unify_binds(d, *lifetime, *lifetime2, r2.state);
                        let r3 = unify_types(d, *lifetime, *lifetime2, r2.state)->0;
                        lemma_binds_further(s, r2.state, r3.state);
                    }
                }
            },
            (Ty::NamedGeneric(id1, _), _) => {
                match s.binding_of(id1) {
                    Some(Binding::Bound(t)) => lemma_unify_binds(d, t, b, s),
                    _ => {
                        if let Ty::NamedGeneric(id2, _) = b {
                            match s.binding_of(id2) {
                                Some(Binding::Bound(t)) => lemma_unify_binds(d, a, t, s),
                                _ => {
                                    if id1 != id2 {
                                        lemma_generic_binds(id1, id2, b, s);
                                    }
                                },
                            }
                        }
                    },
                }
            },
            (_, Ty::NamedGeneric(id2, _)) => {
                if let Some(Binding::Bound(t)) = s.binding_of(id2) {
                    lemma_unify_binds(d, a, t, s);
                }
            },
            _ => {},
        }
    }
}

/// Binding an unbound named generic to another one makes no cycle.
proof fn lemma_generic_binds(id: TypeVariableId, other: TypeVariableId, b: Ty, s: State)
    requires
        s.is_unbound(id),
        s.is_unbound(other),
        id != other,
        b matches Ty::NamedGeneric(v, _) && v == other,
        is_rowless(b, var_count(s)),
        is_rowless_state(s),
    ensures
        binds_unbound(s, s.insert(id, b)),
        is_acyclic(s) ==> is_acyclic(s.insert(id, b)),
{
    let r = s.insert(id, b);
    lemma_insert_binds(id, b, s, r);
    if is_acyclic(s) {
        assert forall|m: nat, x: TypeVariableId| mentions(b, x) implies !#[trigger] leads(
            m,
            x,
            id,
            s,
        ) by {
            if leads(m, x, id, s) && m > 0 {
                let y = choose|y: TypeVariableId| #[trigger]
                    points_to(x, y, s) && leads((m - 1) as nat, y, id, s);
                assert(points_to(x, y, s));
            }
        }
        lemma_binding_is_acyclic(id, b, s, r);
    }
}

/// Binding an unbound variable changes nothing else, and leaves no rows.
proof fn lemma_insert_binds(id: TypeVariableId, t: Ty, s: State, r: State)
    requires
        s.is_unbound(id),
        is_rowless(t, var_count(s)),
        is_rowless_state(s),
        r.cache == s.cache,
        r.solution.types == s.solution.types.insert(id.0, t),
    ensures
        binds_unbound(s, r),
        forall|v: TypeVariableId| #[trigger]
            r.binding_of(v) == if v == id {
                Some(Binding::Bound(t))
            } else {
                s.binding_of(v)
            },
{
    assert forall|v: TypeVariableId| #[trigger] r.binding_of(v) == if v == id {
        Some(Binding::Bound(t))
    } else {
        s.binding_of(v)
    } by {
        assert(s.binding_of(id) is Some);
    }
    assert forall|v: TypeVariableId|
        (#[trigger] r.binding_of(v)) matches Some(Binding::Bound(b)) implies is_rowless(
        r.binding_of(v)->0->Bound_0,
        var_count(r),
    ) by {
        assert(v != id ==> r.binding_of(v) == s.binding_of(v));
    }
}

proof fn lemma_all_bind(depth: nat, xs: Seq<Ty>, ys: Seq<Ty>, s: State)
    requires
        all_rowless(xs, var_count(s)),
        all_rowless(ys, var_count(s)),
        is_rowless_state(s),
    ensures
        step_binds(s, unify_seq(depth, xs, ys, s)),
    decreases depth, 1nat, xs.len(),
{
    if xs.len() > 0 && ys.len() > 0 && unify_seq(depth, xs, ys, s) is Some {
        let xs1 = xs.skip(1);
        let ys1 = ys.skip(1);
        lemma_unify_binds(depth, xs[0], ys[0], s);
        let r1 = unify_types(depth, xs[0], ys[0], s)->0;
        if r1.ok {
            assert forall|i: int| 0 <= i < xs1.len() implies is_rowless(
                #[trigger] xs1[i],
                var_count(s),
            ) by {
                assert(xs1[i] == xs[i + 1]);
            }
            assert forall|i: int| 0 <= i < ys1.len() implies is_rowless(
                #[trigger] ys1[i],
                var_count(s),
            ) by {
                assert(ys1[i] == ys[i + 1]);
            }
            lemma_all_bind(depth, xs1, ys1, r1.state);
            let r2 = unify_seq(depth, xs1, ys1, r1.state)->0;
            lemma_binds_further(s, r1.state, r2.state);
        }
    }
}

proof fn lemma_follow_rowless(depth: nat, t: Ty, s: State)
    requires
        is_rowless(t, var_count(s)),
        is_rowless_state(s),
        follow(depth, t, s.solution.types, s.cache.type_bindings) is Some,
    ensures
        is_rowless(
            follow(depth, t, s.solution.types, s.cache.type_bindings)->0,
            var_count(s),
        ),
    decreases depth,
{
    if let Ty::Variable(v) = t {
        if let Some(Binding::Bound(b)) = s.binding_of(v) {
            lemma_follow_rowless((depth - 1) as nat, b, s);
        }
    }
}

proof fn lemma_variable_binds(
    depth: nat,
    id: TypeVariableId,
    b: Ty,
    on_lhs: bool,
    s: State,
)
    requires
        id.0 < var_count(s),
        is_rowless(b, var_count(s)),
        is_rowless_state(s),
    ensures
        step_binds(s, unify_variable(depth, id, Ty::Variable(id), b, on_lhs, s)),
    decreases depth, 1nat, 0nat,
{
    let types = s.solution.types;
    let vars = s.cache.type_bindings;
    if unify_variable(depth, id, Ty::Variable(id), b, on_lhs, s) is Some {
        match s.binding_of(id) {
            None => {},
            Some(Binding::Bound(t)) => {
                if on_lhs {
                    lemma_unify_binds(depth, t, b, s);
                } else {
                    lemma_unify_binds(depth, b, t, s);
                }
            },
            Some(Binding::Unbound(level, _)) => {
                lemma_follow_rowless(MAX_DEPTH as nat, b, s);
                let end = follow(MAX_DEPTH as nat, b, types, vars)->0;
                let found = occurs_in(RECURSION_LIMIT as nat, id, level, end, types, vars);
                if end != Ty::Variable(id) {
                    if let Some((false, levels)) = found {
                        let r = State {
                            solution: Solution {
                                types: types.insert(id.0, end),
                                levels: s.solution.levels + levels,
                            },
                            cache: s.cache,
                        };
                        lemma_insert_binds(id, end, s, r);
                        if is_acyclic(s) {
                            assert forall|m: nat, x: TypeVariableId|
                                mentions(end, x) implies !#[trigger] leads(m, x, id, s) by {
                                lemma_not_found(RECURSION_LIMIT as nat, id, level, end, s, m, x);
                            }
                            lemma_binding_is_acyclic(id, end, s, r);
                        }
                    }
                }
            },
        }
    }
}

/// The variables that following bindings leads to from the given one, itself included.
pub open spec fn reached(v: TypeVariableId, s: State) -> Set<int> {
    Set::new(
        |k: int|
            0 <= k < var_count(s) && exists|n: nat, w: TypeVariableId|
                w.0 == k && #[trigger] leads(n, v, w, s),
    )
}

/// How many variables following bindings leads to.
pub open spec fn rank(v: TypeVariableId, s: State) -> nat {
    reached(v, s).len()
}

/// Without cycles, fewer variables are reached from what a variable is bound to.
proof fn lemma_rank_falls(v: TypeVariableId, x: TypeVariableId, s: State)
    requires
        is_acyclic(s),
        v.0 < var_count(s),
        points_to(v, x, s),
    ensures
        rank(x, s) < rank(v, s),
{
    let all = set_int_range(0, var_count(s) as int);
    let from_v = reached(v, s);
    let from_x = reached(x, s);
    lemma_int_range(0, var_count(s) as int);
    assert(from_v.subset_of(all));
    lemma_len_subset(from_v, all);
    assert(leads(0, v, v, s));
    assert(from_v.contains(v.0 as int));
    assert forall|k: int| from_x.contains(k) implies #[trigger] from_v.contains(k) by {
        let (n, w) = choose|n: nat, w: TypeVariableId| w.0 == k && #[trigger] leads(n, x, w, s);
        assert((n + 1 - 1) as nat == n);
        assert(leads(n + 1, v, w, s));
    }
    assert(!from_x.contains(v.0 as int)) by {
        if from_x.contains(v.0 as int) {
            let (n, w) = choose|n: nat, w: TypeVariableId|
                w.0 == v.0 && #[trigger] leads(n, x, w, s);
            assert(w == v);
            assert((n + 1 - 1) as nat == n);
            assert(leads(n + 1, v, v, s));
        }
    }
    lemma_len_subset(from_x, from_v);
    if from_x.len() == from_v.len() {
        lemma_subset_equality(from_x, from_v);
    }
}

/// The plain type with every bound variable replaced, at every depth, until only unbound ones are
/// left. `None` if that takes more than `depth` steps.
pub open spec fn resolved(depth: nat, t: Ty, s: State) -> Option<Ty>
    decreases depth, 0nat,
{
    if depth == 0 {
        None
    } else {
        let d = (depth - 1) as nat;
        match t {
            Ty::Primitive(_) => Some(t),
            Ty::UserDefined(_) => Some(t),
            Ty::Variable(v) => match s.binding_of(v) {
                None => None,
                Some(Binding::Bound(b)) => resolved(d, b, s),
                Some(Binding::Unbound(_, _)) => Some(t),
            },
            Ty::Function { parameters, return_type, environment, effects, has_varargs } => match (
                all_resolved(d, parameters, s),
                resolved(d, *return_type, s),
                resolved(d, *environment, s),
                resolved(d, *effects, s),
            ) {
                (Some(p), Some(r), Some(env), Some(e)) => Some(
                    Ty::Function {
                        parameters: p,
                        return_type: Box::new(r),
                        environment: Box::new(env),
                        effects: Box::new(e),
                        has_varargs,
                    },
                ),
                _ => None,
            },
            Ty::Application(constructor, args) => match (
                resolved(d, *constructor, s),
                all_resolved(d, args, s),
            ) {
                (Some(c), Some(a)) => Some(Ty::Application(Box::new(c), a)),
                _ => None,
            },
            Ty::Ref { sharedness, mutability, lifetime } => match (
                resolved(d, *sharedness, s),
                resolved(d, *mutability, s),
                resolved(d, *lifetime, s),
            ) {
                (Some(sh), Some(m), Some(l)) => Some(
                    Ty::Ref {
                        sharedness: Box::new(sh),
                        mutability: Box::new(m),
                        lifetime: Box::new(l),
                    },
                ),
                _ => None,
            },
            _ => None,
        }
    }
}

/// Each of the types with every bound variable replaced.
pub open spec fn all_resolved(depth: nat, ts: Seq<Ty>, s: State) -> Option<Seq<Ty>>
    decreases depth, 1nat,
{
    if forall|i: int| 0 <= i < ts.len() ==> resolved(depth, #[trigger] ts[i], s) is Some {
        Some(Seq::new(ts.len(), |i: int| resolved(depth, ts[i], s)->0))
    } else {
        None
    }
}

/// More depth changes nothing.
proof fn lemma_resolved_more(d: nat, e: nat, t: Ty, s: State)
    requires
        d <= e,
        resolved(d, t, s) is Some,
    ensures
        resolved(e, t, s) == resolved(d, t, s),
    decreases d, 0nat,
{
    let d1 = (d - 1) as nat;
    let e1 = (e - 1) as nat;
    match t {
        Ty::Variable(v) => {
            if let Some(Binding::Bound(b)) = s.binding_of(v) {
                lemma_resolved_more(d1, e1, b, s);
            }
        },
        Ty::Function { parameters, return_type, environment, effects, .. } => {
            lemma_all_resolved_more(d1, e1, parameters, s);
            lemma_resolved_more(d1, e1, *return_type, s);
            lemma_resolved_more(d1, e1, *environment, s);
            lemma_resolved_more(d1, e1, *effects, s);
        },
        Ty::Application(constructor, args) => {
            lemma_resolved_more(d1, e1, *constructor, s);
            lemma_all_resolved_more(d1, e1, args, s);
        },
        Ty::Ref { sharedness, mutability, lifetime } => {
            lemma_resolved_more(d1, e1, *sharedness, s);
            lemma_resolved_more(d1, e1, *mutability, s);
            lemma_resolved_more(d1, e1, *lifetime, s);
        },
        _ => {},
    }
}

proof fn lemma_all_resolved_more(d: nat, e: nat, ts: Seq<Ty>, s: State)
    requires
        d <= e,
        all_resolved(d, ts, s) is Some,
    ensures
        all_resolved(e, ts, s) == all_resolved(d, ts, s),
    decreases d, 1nat,
{
    assert forall|i: int| 0 <= i < ts.len() implies resolved(e, #[trigger] ts[i], s) == resolved(
        d,
        ts[i],
        s,
    ) && resolved(d, ts[i], s) is Some by {
        lemma_resolved_more(d, e, ts[i], s);
    }
    assert(all_resolved(e, ts, s)->0 =~= all_resolved(d, ts, s)->0);
}

/// Without cycles, each type can be resolved.
proof fn lemma_resolves(t: Ty, k: nat, s: State) -> (d: nat)
    requires
        is_plain(t, var_count(s)),
        is_plain_state(s),
        is_acyclic(s),
        forall|v: TypeVariableId| #[trigger] mentions(t, v) ==> rank(v, s) < k,
    ensures
        resolved(d, t, s) is Some,
    decreases k, t,
{
    match t {
        Ty::Variable(v) => {
            assert(mentions(t, v));
            match s.binding_of(v) {
                Some(Binding::Bound(b)) => {
                    assert forall|x: TypeVariableId| #[trigger] mentions(b, x) implies rank(x, s)
                        < rank(v, s) by {
                        lemma_rank_falls(v, x, s);
                    }
                    let d = lemma_resolves(b, rank(v, s), s);
                    assert((d + 1 - 1) as nat == d);
                    d + 1
                },
                _ => 1,
            }
        },
        Ty::Function { parameters, return_type, environment, effects, .. } => {
            assert forall|i: int, v: TypeVariableId|
                0 <= i < parameters.len() && #[trigger] mentions(parameters[i], v) implies rank(
                v,
                s,
            ) < k by {
                assert(mentions(t, v));
            }
            assert forall|v: TypeVariableId| #[trigger]
                mentions(*return_type, v) implies rank(v, s) < k by {
                assert(mentions(t, v));
            }
            assert forall|v: TypeVariableId| #[trigger]
                mentions(*environment, v) implies rank(v, s) < k by {
                assert(mentions(t, v));
            }
            assert forall|v: TypeVariableId| #[trigger]
                mentions(*effects, v) implies rank(v, s) < k by {
                assert(mentions(t, v));
            }
            let d1 = lemma_all_resolve(parameters, k, s);
            let d2 = lemma_resolves(*return_type, k, s);
            let d3 = lemma_resolves(*environment, k, s);
            let d4 = lemma_resolves(*effects, k, s);
            let d = d1 + d2 + d3 + d4;
            lemma_all_resolved_more(d1, d, parameters, s);
            lemma_resolved_more(d2, d, *return_type, s);
            lemma_resolved_more(d3, d, *environment, s);
            lemma_resolved_more(d4, d, *effects, s);
            assert((d + 1 - 1) as nat == d);
            d + 1
        },
        Ty::Application(constructor, args) => {
            assert forall|i: int, v: TypeVariableId|
                0 <= i < args.len() && #[trigger] mentions(args[i], v) implies rank(v, s) < k by {
                assert(mentions(t, v));
            }
            assert forall|v: TypeVariableId| #[trigger]
                mentions(*constructor, v) implies rank(v, s) < k by {
                assert(mentions(t, v));
            }
            let d1 = lemma_resolves(*constructor, k, s);
            let d2 = lemma_all_resolve(args, k, s);
            let d = d1 + d2;
            lemma_resolved_more(d1, d, *constructor, s);
            lemma_all_resolved_more(d2, d, args, s);
            assert((d + 1 - 1) as nat == d);
            d + 1
        },
        Ty::Ref { sharedness, mutability, lifetime } => {
            assert forall|v: TypeVariableId| #[trigger]
                mentions(*sharedness, v) implies rank(v, s) < k by {
                assert(mentions(t, v));
            }
            assert forall|v: TypeVariableId| #[trigger]
                mentions(*mutability, v) implies rank(v, s) < k by {
                assert(mentions(t, v));
            }
            assert forall|v: TypeVariableId| #[trigger]
                mentions(*lifetime, v) implies rank(v, s) < k by {
                assert(mentions(t, v));
            }
            let d1 = lemma_resolves(*sharedness, k, s);
            let d2 = lemma_resolves(*mutability, k, s);
            let d3 = lemma_resolves(*lifetime, k, s);
            let d = d1 + d2 + d3;
            lemma_resolved_more(d1, d, *sharedness, s);
            lemma_resolved_more(d2, d, *mutability, s);
            lemma_resolved_more(d3, d, *lifetime, s);
            assert((d + 1 - 1) as nat == d);
            d + 1
        },
        _ => 1,
    }
}

proof fn lemma_all_resolve(ts: Seq<Ty>, k: nat, s: State) -> (d: nat)
    requires
        all_plain(ts, var_count(s)),
        is_plain_state(s),
        is_acyclic(s),
        forall|i: int, v: TypeVariableId|
            0 <= i < ts.len() && #[trigger] mentions(ts[i], v) ==> rank(v, s) < k,
    ensures
        all_resolved(d, ts, s) is Some,
    decreases k, ts,
{
    if ts.len() == 0 {
        0
    } else {
        let before = ts.drop_last();
        assert forall|i: int, v: TypeVariableId|
            0 <= i < before.len() && #[trigger] mentions(before[i], v) implies rank(v, s) < k by {
            assert(mentions(ts[i], v));
        }
        assert forall|v: TypeVariableId| #[trigger] mentions(ts.last(), v) implies rank(v, s)
            < k by {
            assert(mentions(ts[ts.len() - 1], v));
        }
        let d1 = lemma_all_resolve(before, k, s);
        let d2 = lemma_resolves(ts.last(), k, s);
        let d = d1 + d2;
        lemma_all_resolved_more(d1, d, before, s);
        lemma_resolved_more(d2, d, ts.last(), s);
        assert forall|i: int| 0 <= i < ts.len() implies resolved(
            d,
            #[trigger] ts[i],
            s,
        ) is Some by {
            if i < ts.len() - 1 {
                assert(ts[i] == before[i]);
            }
        }
        d
    }
}

/// Where following bindings never leads back to where it started, every plain type can be
/// resolved.
pub proof fn law_acyclic_resolves(t: Ty, s: State)
    requires
        is_plain(t, var_count(s)),
        is_plain_state(s),
        is_acyclic(s),
    ensures
        exists|d: nat| #[trigger] resolved(d, t, s) is Some,
{
    let k = (var_count(s) + 1) as nat;
    assert forall|v: TypeVariableId| #[trigger] mentions(t, v) implies rank(v, s) < k by {
        let all = set_int_range(0, var_count(s) as int);
        lemma_int_range(0, var_count(s) as int);
        assert(reached(v, s).subset_of(all));
        lemma_len_subset(reached(v, s), all);
    }
    let d = lemma_resolves(t, k, s);
    assert(resolved(d, t, s) is Some);
}

/// The substitution that resolves each variable.
pub open spec fn resolution(s: State) -> Substitution {
    |v: TypeVariableId|
        {
            let d = choose|d: nat| #[trigger] resolved(d, Ty::Variable(v), s) is Some;
            match resolved(d, Ty::Variable(v), s) {
                Some(t) => t,
                None => Ty::Variable(v),
            }
        }
}

/// Resolving is applying the substitution that resolves each variable.
pub proof fn lemma_resolved_is_applied(depth: nat, t: Ty, s: State)
    requires
        resolved(depth, t, s) is Some,
    ensures
        resolved(depth, t, s) == Some(apply(resolution(s), t)),
    decreases depth, 0nat,
{
    let d = (depth - 1) as nat;
    let f = resolution(s);
    match t {
        Ty::Variable(v) => {
            let e = choose|e: nat| #[trigger] resolved(e, Ty::Variable(v), s) is Some;
            assert(resolved(depth, Ty::Variable(v), s) is Some);
            if e <= depth {
                lemma_resolved_more(e, depth, t, s);
            } else {
                lemma_resolved_more(depth, e, t, s);
            }
        },
        Ty::Function { parameters, return_type, environment, effects, .. } => {
            lemma_all_resolved_is_applied(d, parameters, s);
            lemma_resolved_is_applied(d, *return_type, s);
            lemma_resolved_is_applied(d, *environment, s);
            lemma_resolved_is_applied(d, *effects, s);
        },
        Ty::Application(constructor, args) => {
            lemma_resolved_is_applied(d, *constructor, s);
            lemma_all_resolved_is_applied(d, args, s);
        },
        Ty::Ref { sharedness, mutability, lifetime } => {
            lemma_resolved_is_applied(d, *sharedness, s);
            lemma_resolved_is_applied(d, *mutability, s);
            lemma_resolved_is_applied(d, *lifetime, s);
        },
        _ => {},
    }
}

proof fn lemma_all_resolved_is_applied(depth: nat, ts: Seq<Ty>, s: State)
    requires
        all_resolved(depth, ts, s) is Some,
    ensures
        all_resolved(depth, ts, s) == Some(apply_all(resolution(s), ts)),
    decreases depth, 1nat,
{
    let f = resolution(s);
    lemma_apply_all(f, ts);
    assert forall|i: int| 0 <= i < ts.len() implies #[trigger] all_resolved(depth, ts, s)->0[i]
        == apply_all(f, ts)[i] by {
        lemma_resolved_is_applied(depth, ts[i], s);
    }
    assert(all_resolved(depth, ts, s)->0 =~= apply_all(f, ts));
}

/// Where there are no cycles, the substitution that resolves each variable respects the bindings,
/// and leaves the unbound variables alone.
pub proof fn lemma_resolution_respects(s: State)
    requires
        is_plain_state(s),
        is_acyclic(s),
    ensures
        respects(resolution(s), s),
        forall|v: TypeVariableId| #[trigger]
            s.is_unbound(v) ==> resolution(s)(v) == Ty::Variable(v),
{
    let f = resolution(s);
    assert forall|v: TypeVariableId|
        (#[trigger] s.binding_of(v)) matches Some(Binding::Bound(b)) implies f(v) == apply(
        f,
        s.binding_of(v)->0->Bound_0,
    ) by {
        let b = s.binding_of(v)->0->Bound_0;
        law_acyclic_resolves(b, s);
        let d = choose|d: nat| #[trigger] resolved(d, b, s) is Some;
        assert((d + 1 - 1) as nat == d);
        assert(resolved(d + 1, Ty::Variable(v), s) == resolved(d, b, s));
        lemma_resolved_is_applied(d + 1, Ty::Variable(v), s);
        lemma_resolved_is_applied(d, b, s);
    }
    assert forall|v: TypeVariableId| #[trigger] s.is_unbound(v) implies f(v) == Ty::Variable(v) by {
        assert(resolved(1, Ty::Variable(v), s) == Some(Ty::Variable(v)));
        lemma_resolved_is_applied(1, Ty::Variable(v), s);
    }
}

} // verus!
