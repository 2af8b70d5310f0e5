//! What successful unification achieves: the two types agree wherever their bindings are
//! followed.

use crate::bindings::{bind_all, lower_levels, Solution};
use crate::cache::{lookup, Binding, Cache, Location, Reason};
use crate::effects::{effect_args, effect_id, effects_without, find_effect, flatten};
use crate::occurs_laws::law_lowering_only_lowers;
use crate::resolve::{follow, MAX_DEPTH};
use crate::row_laws::{law_insert_get, law_insert_sorted, law_same_names, lemma_sorted_get};
use crate::rows::Row;
use crate::solve::{after_unify, fresh_unification};
use crate::types::{Ty, TypeTag, TypeVariableId};
use crate::unify::{
    fields_of, fresh_row, merge_rows, unify_common, unify_effects, unify_row_with, unify_rows,
    unify_seq, unify_subset, unify_types, unify_variable, State, Step,
};
use crate::unify_laws::{is_proper, law_unify_keeps};
use vstd::prelude::*;

verus! {

/// What the type stands for: the binding of a variable, or of the variable of a row.
pub open spec fn hop(t: Ty, s: State) -> Option<Ty> {
    match t {
        Ty::Variable(id) | Ty::NamedGeneric(id, _) | Ty::Struct(_, _, id) => match s.binding_of(
            id,
        ) {
            Some(Binding::Bound(b)) => Some(b),
            _ => None,
        },
        _ => None,
    }
}

/// The tag may stand where the other one is expected.
pub open spec fn tag_fits(a: TypeTag, b: TypeTag) -> bool {
    a == b || (a == TypeTag::Mutable && b == TypeTag::Immutable) || (a == TypeTag::Owned && b
        == TypeTag::Shared)
}

/// Whether no difference between the types shows within `n` steps: following bindings on both
/// sides, they have the same shape, the same variables in the same places, and tags that fit. What
/// effects there are in two rows of effects is not looked at here: `rows_agree` says that.
pub open spec fn agrees(exact: bool, n: nat, a: Ty, b: Ty, s: State) -> bool
    decreases n,
{
    if n == 0 {
        true
    } else {
        let m = (n - 1) as nat;
        match hop(a, s) {
            Some(a1) => agrees(exact, m, a1, b, s),
            None => match hop(b, s) {
                Some(b1) => agrees(exact, m, a, b1, s),
                None => match (a, b) {
                    (Ty::Primitive(p), Ty::Primitive(q)) => p == q,
                    (Ty::UserDefined(p), Ty::UserDefined(q)) => p == q,
                    (Ty::Variable(x), Ty::Variable(y)) => x == y,
                    (Ty::NamedGeneric(x, _), Ty::NamedGeneric(y, _)) => x == y,
                    (Ty::Tag(x), Ty::Tag(y)) => x == y || (!exact && tag_fits(x, y)),
                    (
                        Ty::Function { parameters, return_type, environment, effects, has_varargs },
                        Ty::Function {
                            parameters: parameters2,
                            return_type: return_type2,
                            environment: environment2,
                            effects: effects2,
                            has_varargs: has_varargs2,
                        },
                    ) => {
                        &&& parameters.len() == parameters2.len() || (has_varargs
                            && parameters2.len() >= parameters.len()) || (has_varargs2
                            && parameters.len() >= parameters2.len())
                        &&& forall|i: int|
                            0 <= i < parameters.len() && i < parameters2.len() ==> agrees(
                                exact,
                                m,
                                #[trigger] parameters[i],
                                parameters2[i],
                                s,
                            )
                        &&& agrees(exact, m, *return_type2, *return_type, s)
                        &&& agrees(exact, m, *environment, *environment2, s)
                        &&& agrees(exact, m, *effects, *effects2, s)
                    },
                    (Ty::Application(c1, args1), Ty::Application(c2, args2)) => {
                        &&& agrees(exact, m, *c1, *c2, s)
                        &&& args1.len() == args2.len()
                        &&& forall|i: int|
                            0 <= i < args1.len() ==> agrees(
                                exact,
                                m,
                                #[trigger] args1[i],
                                args2[i],
                                s,
                            )
                    },
                    (
                        Ty::Ref { sharedness, mutability, lifetime },
                        Ty::Ref {
                            sharedness: sharedness2,
                            mutability: mutability2,
                            lifetime: lifetime2,
                        },
                    ) => {
                        &&& agrees(exact, m, *sharedness, *sharedness2, s)
                        &&& agrees(exact, m, *mutability, *mutability2, s)
                        &&& agrees(exact, m, *lifetime, *lifetime2, s)
                    },
                    (Ty::Struct(names1, types1, rest1), Ty::Struct(names2, types2, rest2)) => {
                        &&& rest1 == rest2
                        &&& names1 == names2
                        &&& types1.len() == types2.len()
                        &&& forall|i: int|
                            0 <= i < types1.len() ==> agrees(
                                exact,
                                m,
                                #[trigger] types1[i],
                                types2[i],
                                s,
                            )
                    },
                    (Ty::Effects(_, _), Ty::Effects(_, _)) => true,
                    (Ty::Effect(_, _), Ty::Effect(_, _)) => true,
                    _ => false,
                },
            },
        }
    }
}

/// The types agree: no difference ever shows.
pub open spec fn agree(exact: bool, a: Ty, b: Ty, s: State) -> bool {
    forall|n: nat| agrees(exact, n, a, b, s)
}

/// Every binding of the earlier state is one of the later state, and if the earlier solution binds
/// only variables that the cache leaves unbound, so does the later one.
pub open spec fn grows(before: State, after: State) -> bool {
    &&& forall|id: TypeVariableId|
        #![trigger before.binding_of(id)]
        before.binding_of(id) matches Some(Binding::Bound(_)) ==> after.binding_of(id)
            == before.binding_of(id)
    &&& is_proper(before) ==> is_proper(after)
}

/// The type that `k` hops lead to.
pub open spec fn hops(k: nat, t: Ty, s: State) -> Option<Ty>
    decreases k,
{
    if k == 0 {
        Some(t)
    } else {
        match hop(t, s) {
            Some(t1) => hops((k - 1) as nat, t1, s),
            None => None,
        }
    }
}

proof fn lemma_hops_then_hop(k: nat, t: Ty, s: State)
    requires
        hops(k, t, s) is Some,
    ensures
        hops(k + 1, t, s) == hop(hops(k, t, s)->0, s),
    decreases k,
{
    if k > 0 {
        lemma_hops_then_hop((k - 1) as nat, hop(t, s)->0, s);
    } else {
        reveal_with_fuel(hops, 2);
    }
}

/// Types that lead to the same type agree.
pub proof fn lemma_joined(exact: bool, n: nat, a: Ty, b: Ty, i: nat, j: nat, s: State)
    requires
        hops(i, a, s) is Some,
        hops(i, a, s) == hops(j, b, s),
    ensures
        agrees(exact, n, a, b, s),
    decreases n,
{
    if n > 0 {
        let m = (n - 1) as nat;
        match hop(a, s) {
            Some(a1) => {
                if i > 0 {
                    lemma_joined(exact, m, a1, b, (i - 1) as nat, j, s);
                } else {
                    lemma_hops_then_hop(j, b, s);
                    lemma_joined(exact, m, a1, b, 0, j + 1, s);
                }
            },
            None => match hop(b, s) {
                Some(b1) => lemma_joined(exact, m, a, b1, 0, (j - 1) as nat, s),
                None => {
                    assert(a == b);
                    match a {
                        Ty::Function { parameters, return_type, environment, effects, .. } => {
                            assert forall|k: int| 0 <= k < parameters.len() implies agrees(
                                exact,
                                m,
                                #[trigger] parameters[k],
                                parameters[k],
                                s,
                            ) by {
                                lemma_joined(exact, m, parameters[k], parameters[k], 0, 0, s);
                            }
                            lemma_joined(exact, m, *return_type, *return_type, 0, 0, s);
                            lemma_joined(exact, m, *environment, *environment, 0, 0, s);
                            lemma_joined(exact, m, *effects, *effects, 0, 0, s);
                        },
                        Ty::Application(c, args) => {
                            lemma_joined(exact, m, *c, *c, 0, 0, s);
                            assert forall|k: int| 0 <= k < args.len() implies agrees(
                                exact,
                                m,
                                #[trigger] args[k],
                                args[k],
                                s,
                            ) by {
                                lemma_joined(exact, m, args[k], args[k], 0, 0, s);
                            }
                        },
                        Ty::Ref { sharedness, mutability, lifetime } => {
                            lemma_joined(exact, m, *sharedness, *sharedness, 0, 0, s);
                            lemma_joined(exact, m, *mutability, *mutability, 0, 0, s);
                            lemma_joined(exact, m, *lifetime, *lifetime, 0, 0, s);
                        },
                        Ty::Struct(_, types, _) => {
                            assert forall|k: int| 0 <= k < types.len() implies agrees(
                                exact,
                                m,
                                #[trigger] types[k],
                                types[k],
                                s,
                            ) by {
                                lemma_joined(exact, m, types[k], types[k], 0, 0, s);
                            }
                        },
                        _ => {},
                    }
                },
            },
        }
    }
}

proof fn lemma_joined_agree(exact: bool, a: Ty, b: Ty, i: nat, j: nat, s: State)
    requires
        hops(i, a, s) is Some,
        hops(i, a, s) == hops(j, b, s),
    ensures
        agree(exact, a, b, s),
        agree(exact, b, a, s),
{
    assert forall|n: nat| agrees(exact, n, a, b, s) by {
        lemma_joined(exact, n, a, b, i, j, s);
    }
    assert forall|n: nat| agrees(exact, n, b, a, s) by {
        lemma_joined(exact, n, b, a, j, i, s);
    }
}

/// Every type agrees with itself.
pub proof fn law_agree_reflexive(exact: bool, a: Ty, s: State)
    ensures
        agree(exact, a, a, s),
{
    lemma_joined_agree(exact, a, a, 0, 0, s);
}

proof fn lemma_hops_less(k: nat, t: Ty, s: State)
    requires
        k > 0,
        hops(k, t, s) is Some,
    ensures
        hops((k - 1) as nat, t, s) is Some,
    decreases k,
{
    if k > 1 {
        lemma_hops_less((k - 1) as nat, hop(t, s)->0, s);
    }
}

/// No difference to a type shows before all its hops were made.
proof fn lemma_hopping(exact: bool, n: nat, a: Ty, b: Ty, s: State)
    requires
        hops(n, b, s) is Some,
    ensures
        agrees(exact, n, a, b, s),
    decreases n,
{
    if n > 0 {
        let m = (n - 1) as nat;
        match hop(a, s) {
            Some(a1) => {
                lemma_hops_less(n, b, s);
                lemma_hopping(exact, m, a1, b, s);
            },
            None => lemma_hopping(exact, m, a, hop(b, s)->0, s),
        }
    }
}

/// Where `a` agrees with `b`, and only later hops to `t`, `b` then leads to `t` as well, or hops
/// at least `n` times.
proof fn lemma_meets(exact: bool, n: nat, a: Ty, b: Ty, s: State, s2: State)
    requires
        grows(s, s2),
        hop(a, s) is None,
        hop(a, s2) is Some,
        agree(exact, a, b, s),
    ensures
        hops(n, b, s2) is Some || exists|k: nat| #[trigger] hops(k, b, s2) == hop(a, s2),
    decreases n,
{
    if n > 0 {
        match hop(b, s) {
            Some(b1) => {
                assert(hop(b, s2) == Some(b1));
                assert forall|m: nat| agrees(exact, m, a, b1, s) by {
                    assert(agrees(exact, m + 1, a, b, s));
                }
                lemma_meets(exact, (n - 1) as nat, a, b1, s, s2);
                if hops((n - 1) as nat, b1, s2) is None {
                    let k = choose|k: nat| #[trigger] hops(k, b1, s2) == hop(a, s2);
                    assert(hops(k + 1, b, s2) == hop(a, s2));
                }
            },
            None => {
                assert(agrees(exact, 1, a, b, s));
                assert(hop(b, s2) == hop(a, s2));
                reveal_with_fuel(hops, 2);
                assert(hops(1, b, s2) == hop(a, s2));
            },
        }
    }
}

/// Types that agree still do when more variables are bound.
pub proof fn lemma_stays(exact: bool, n: nat, a: Ty, b: Ty, s: State, s2: State)
    requires
        grows(s, s2),
        agree(exact, a, b, s),
    ensures
        agrees(exact, n, a, b, s2),
    decreases n, 1nat,
{
    if n > 0 {
        let m = (n - 1) as nat;
        match hop(a, s) {
            Some(a1) => {
                assert(hop(a, s2) == Some(a1));
                assert forall|k: nat| agrees(exact, k, a1, b, s) by {
                    assert(agrees(exact, k + 1, a, b, s));
                }
                lemma_stays(exact, m, a1, b, s, s2);
            },
            None => {
                if hop(a, s2) is Some {
                    lemma_meets(exact, n, a, b, s, s2);
                    if hops(n, b, s2) is Some {
                        lemma_hopping(exact, n, a, b, s2);
                    } else {
                        let k = choose|k: nat| #[trigger] hops(k, b, s2) == hop(a, s2);
                        reveal_with_fuel(hops, 2);
                        assert(hops(1, a, s2) == hop(a, s2));
                        lemma_joined(exact, n, a, b, 1, k, s2);
                    }
                } else {
                    match hop(b, s) {
                        Some(b1) => {
                            assert(hop(b, s2) == Some(b1));
                            assert forall|k: nat| agrees(exact, k, a, b1, s) by {
                                assert(agrees(exact, k + 1, a, b, s));
                            }
                            lemma_stays(exact, m, a, b1, s, s2);
                        },
                        None => {
                            assert(agrees(exact, 1, a, b, s));
                            assert(hop(b, s2) is None);
                            lemma_parts_stay(exact, n, a, b, s, s2);
                        },
                    }
                }
            },
        }
    }
}

proof fn lemma_parts_stay(exact: bool, n: nat, a: Ty, b: Ty, s: State, s2: State)
    requires
        n > 0,
        grows(s, s2),
        agree(exact, a, b, s),
        hop(a, s) is None,
        hop(b, s) is None,
        hop(a, s2) is None,
        hop(b, s2) is None,
    ensures
        agrees(exact, n, a, b, s2),
    decreases n, 0nat,
{
    let m = (n - 1) as nat;
    assert(agrees(exact, 1, a, b, s));
    match (a, b) {
        (
            Ty::Function { parameters, return_type, environment, effects, .. },
            Ty::Function {
                parameters: parameters2,
                return_type: return_type2,
                environment: environment2,
                effects: effects2,
                ..
            },
        ) => {
            assert forall|i: int| 0 <= i < parameters.len() && i < parameters2.len() implies agrees(
                exact,
                m,
                #[trigger] parameters[i],
                parameters2[i],
                s2,
            ) by {
                assert forall|k: nat| agrees(exact, k, parameters[i], parameters2[i], s) by {
                    assert(agrees(exact, k + 1, a, b, s));
                }
                lemma_stays(exact, m, parameters[i], parameters2[i], s, s2);
            }
            assert forall|k: nat| agrees(exact, k, *return_type2, *return_type, s) by {
                assert(agrees(exact, k + 1, a, b, s));
            }
            lemma_stays(exact, m, *return_type2, *return_type, s, s2);
            assert forall|k: nat| agrees(exact, k, *environment, *environment2, s) by {
                assert(agrees(exact, k + 1, a, b, s));
            }
            lemma_stays(exact, m, *environment, *environment2, s, s2);
            assert forall|k: nat| agrees(exact, k, *effects, *effects2, s) by {
                assert(agrees(exact, k + 1, a, b, s));
            }
            lemma_stays(exact, m, *effects, *effects2, s, s2);
        },
        (Ty::Application(c1, args1), Ty::Application(c2, args2)) => {
            assert forall|k: nat| agrees(exact, k, *c1, *c2, s) by {
                assert(agrees(exact, k + 1, a, b, s));
            }
            lemma_stays(exact, m, *c1, *c2, s, s2);
            assert forall|i: int| 0 <= i < args1.len() implies agrees(
                exact,
                m,
                #[trigger] args1[i],
                args2[i],
                s2,
            ) by {
                assert forall|k: nat| agrees(exact, k, args1[i], args2[i], s) by {
                    assert(agrees(exact, k + 1, a, b, s));
                }
                lemma_stays(exact, m, args1[i], args2[i], s, s2);
            }
        },
        (
            Ty::Ref { sharedness, mutability, lifetime },
            Ty::Ref { sharedness: sharedness2, mutability: mutability2, lifetime: lifetime2 },
        ) => {
            assert forall|k: nat| agrees(exact, k, *sharedness, *sharedness2, s) by {
                assert(agrees(exact, k + 1, a, b, s));
            }
            lemma_stays(exact, m, *sharedness, *sharedness2, s, s2);
            assert forall|k: nat| agrees(exact, k, *mutability, *mutability2, s) by {
                assert(agrees(exact, k + 1, a, b, s));
            }
            lemma_stays(exact, m, *mutability, *mutability2, s, s2);
            assert forall|k: nat| agrees(exact, k, *lifetime, *lifetime2, s) by {
                assert(agrees(exact, k + 1, a, b, s));
            }
            lemma_stays(exact, m, *lifetime, *lifetime2, s, s2);
        },
        (Ty::Struct(_, types1, _), Ty::Struct(_, types2, _)) => {
            assert forall|i: int| 0 <= i < types1.len() implies agrees(
                exact,
                m,
                #[trigger] types1[i],
                types2[i],
                s2,
            ) by {
                assert forall|k: nat| agrees(exact, k, types1[i], types2[i], s) by {
                    assert(agrees(exact, k + 1, a, b, s));
                }
                lemma_stays(exact, m, types1[i], types2[i], s, s2);
            }
        },
        _ => {},
    }
}

/// Types that agree still do when more variables are bound.
pub proof fn law_agreement_stays(exact: bool, a: Ty, b: Ty, s: State, s2: State)
    requires
        grows(s, s2),
        agree(exact, a, b, s),
    ensures
        agree(exact, a, b, s2),
{
    assert forall|n: nat| agrees(exact, n, a, b, s2) by {
        lemma_stays(exact, n, a, b, s, s2);
    }
}

/// Whether the step succeeded and was regular, and exact where that is asked for.
pub open spec fn went_well(exact: bool, step: Option<Step>) -> bool {
    step matches Some(r) && r.ok && r.manner.regular && (exact ==> r.manner.exact)
}

/// Whether the step, if it succeeded and was regular, kept every binding and made the types
/// agree.
pub open spec fn step_agrees(exact: bool, step: Option<Step>, a: Ty, b: Ty, s: State) -> bool {
    went_well(exact, step) ==> grows(s, step->0.state) && agree(exact, a, b, step->0.state)
}

/// Whether each type agrees with the one in the same place of the other list.
pub open spec fn all_agree(exact: bool, xs: Seq<Ty>, ys: Seq<Ty>, s: State) -> bool {
    forall|i: int| 0 <= i < xs.len() && i < ys.len() ==> agree(exact, #[trigger] xs[i], ys[i], s)
}

/// Types that agree do so still when more is bound.
pub proof fn lemma_all_agree_stays(exact: bool, xs: Seq<Ty>, ys: Seq<Ty>, s: State, s2: State)
    requires
        grows(s, s2),
        all_agree(exact, xs, ys, s),
    ensures
        all_agree(exact, xs, ys, s2),
{
    assert forall|i: int| 0 <= i < xs.len() && i < ys.len() implies agree(
        exact,
        #[trigger] xs[i],
        ys[i],
        s2,
    ) by {
        law_agreement_stays(exact, xs[i], ys[i], s, s2);
    }
}

/// Keeping every binding twice is keeping them.
pub proof fn lemma_grows_all(a: State, b: State, c: State)
    requires
        grows(a, b),
        grows(b, c),
    ensures
        grows(a, c),
{
    assert forall|id: TypeVariableId|
        #![trigger a.binding_of(id)]
        a.binding_of(id) matches Some(Binding::Bound(_)) implies c.binding_of(id)
        == a.binding_of(id) by {
        assert(b.binding_of(id) == a.binding_of(id));
    }
}

/// Following a chain of bindings is a number of hops.
proof fn lemma_follow_is_hops(depth: nat, t: Ty, s: State) -> (k: nat)
    requires
        follow(depth, t, s.solution.types, s.cache.type_bindings) is Some,
    ensures
        hops(k, t, s) == follow(depth, t, s.solution.types, s.cache.type_bindings),
    decreases depth,
{
    if let Ty::Variable(id) = t {
        if let Some(Binding::Bound(b)) = s.binding_of(id) {
            let k = lemma_follow_is_hops((depth - 1) as nat, b, s);
            k + 1
        } else {
            0
        }
    } else {
        0
    }
}

proof fn lemma_hops_grow(k: nat, t: Ty, s: State, s2: State)
    requires
        grows(s, s2),
        hops(k, t, s) is Some,
    ensures
        hops(k, t, s2) == hops(k, t, s),
    decreases k,
{
    if k > 0 {
        let t1 = hop(t, s)->0;
        assert(hop(t, s2) == Some(t1));
        lemma_hops_grow((k - 1) as nat, t1, s, s2);
    }
}

proof fn lemma_hop_agree(exact: bool, a: Ty, t: Ty, b: Ty, s: State)
    requires
        hop(a, s) == Some(t),
        agree(exact, t, b, s),
    ensures
        agree(exact, a, b, s),
{
    assert forall|n: nat| agrees(exact, n, a, b, s) by {
        if n > 0 {
            assert(agrees(exact, (n - 1) as nat, t, b, s));
        }
    }
}

/// What a type agrees with, a type that hops to it agrees with, on the other side.
proof fn lemma_agree_hop(exact: bool, n: nat, a: Ty, b: Ty, t: Ty, s: State)
    requires
        hop(b, s) == Some(t),
        agree(exact, a, t, s),
    ensures
        agrees(exact, n, a, b, s),
    decreases n,
{
    if n > 0 {
        let m = (n - 1) as nat;
        match hop(a, s) {
            Some(a1) => {
                assert forall|k: nat| agrees(exact, k, a1, t, s) by {
                    assert(agrees(exact, k + 1, a, t, s));
                }
                lemma_agree_hop(exact, m, a1, b, t, s);
            },
            None => {
                assert(agrees(exact, m, a, t, s));
            },
        }
    }
}

proof fn lemma_hop_agree_right(exact: bool, a: Ty, b: Ty, t: Ty, s: State)
    requires
        hop(b, s) == Some(t),
        agree(exact, a, t, s),
    ensures
        agree(exact, a, b, s),
{
    assert forall|n: nat| agrees(exact, n, a, b, s) by {
        lemma_agree_hop(exact, n, a, b, t, s);
    }
}

/// What agrees with the type that another one hops to agrees with that hop.
proof fn lemma_agree_past_hop(exact: bool, n: nat, a: Ty, b: Ty, t: Ty, s: State)
    requires
        hop(b, s) == Some(t),
        agree(exact, a, b, s),
    ensures
        agrees(exact, n, a, t, s),
    decreases n,
{
    if n > 0 {
        match hop(a, s) {
            Some(a1) => {
                assert forall|k: nat| agrees(exact, k, a1, b, s) by {
                    assert(agrees(exact, k + 1, a, b, s));
                }
                lemma_agree_past_hop(exact, (n - 1) as nat, a1, b, t, s);
            },
            None => {
                assert(agrees(exact, n + 1, a, b, s));
            },
        }
    }
}

/// Of two types that hop to the same one, the one agrees with what the other agrees with.
proof fn lemma_same_hop(exact: bool, a: Ty, a2: Ty, b: Ty, s: State)
    requires
        hop(a, s) is Some,
        hop(a2, s) == hop(a, s),
        agree(exact, a, b, s),
    ensures
        agree(exact, a2, b, s),
{
    let t = hop(a, s)->0;
    assert forall|n: nat| agrees(exact, n, t, b, s) by {
        assert(agrees(exact, n + 1, a, b, s));
    }
    lemma_hop_agree(exact, a2, t, b, s);
}

proof fn lemma_other_same_hop(exact: bool, a: Ty, b: Ty, b2: Ty, s: State)
    requires
        hop(b, s) is Some,
        hop(b2, s) == hop(b, s),
        agree(exact, a, b, s),
    ensures
        agree(exact, a, b2, s),
{
    let t = hop(b, s)->0;
    assert forall|n: nat| agrees(exact, n, a, t, s) by {
        lemma_agree_past_hop(exact, n, a, b, t, s);
    }
    lemma_hop_agree_right(exact, a, b2, t, s);
}

/// Exact agreement holds both ways.
proof fn lemma_symmetric(n: nat, a: Ty, b: Ty, s: State)
    requires
        agree(true, a, b, s),
    ensures
        agrees(true, n, b, a, s),
    decreases n,
{
    if n > 0 {
        let m = (n - 1) as nat;
        match hop(b, s) {
            Some(b1) => {
                assert forall|k: nat| agrees(true, k, a, b1, s) by {
                    lemma_agree_past_hop(true, k, a, b, b1, s);
                }
                lemma_symmetric(m, a, b1, s);
            },
            None => match hop(a, s) {
                Some(a1) => {
                    assert forall|k: nat| agrees(true, k, a1, b, s) by {
                        assert(agrees(true, k + 1, a, b, s));
                    }
                    lemma_symmetric(m, a1, b, s);
                },
                None => lemma_parts_symmetric(n, a, b, s),
            },
        }
    }
}

proof fn lemma_parts_symmetric(n: nat, a: Ty, b: Ty, s: State)
    requires
        n > 0,
        agree(true, a, b, s),
        hop(a, s) is None,
        hop(b, s) is None,
    ensures
        agrees(true, n, b, a, s),
    decreases n, 0nat,
{
    let m = (n - 1) as nat;
    assert(agrees(true, 1, a, b, s));
    match (a, b) {
        (
            Ty::Function { parameters, return_type, environment, effects, .. },
            Ty::Function {
                parameters: parameters2,
                return_type: return_type2,
                environment: environment2,
                effects: effects2,
                ..
            },
        ) => {
            assert forall|k: nat| agrees(true, k, *return_type2, *return_type, s) by {
                assert(agrees(true, k + 1, a, b, s));
            }
            assert forall|k: nat| agrees(true, k, *environment, *environment2, s) by {
                assert(agrees(true, k + 1, a, b, s));
            }
            assert forall|k: nat| agrees(true, k, *effects, *effects2, s) by {
                assert(agrees(true, k + 1, a, b, s));
            }
            lemma_symmetric(m, *return_type2, *return_type, s);
            lemma_symmetric(m, *environment, *environment2, s);
            lemma_symmetric(m, *effects, *effects2, s);
            assert forall|i: int| 0 <= i < parameters2.len() && i < parameters.len() implies agrees(
                true,
                m,
                #[trigger] parameters2[i],
                parameters[i],
                s,
            ) by {
                assert forall|k: nat| agrees(true, k, parameters[i], parameters2[i], s) by {
                    assert(agrees(true, k + 1, a, b, s));
                }
                lemma_symmetric(m, parameters[i], parameters2[i], s);
            }
        },
        (Ty::Application(c1, args1), Ty::Application(c2, args2)) => {
            assert forall|k: nat| agrees(true, k, *c1, *c2, s) by {
                assert(agrees(true, k + 1, a, b, s));
            }
            lemma_symmetric(m, *c1, *c2, s);
            assert forall|i: int| 0 <= i < args2.len() implies agrees(
                true,
                m,
                #[trigger] args2[i],
                args1[i],
                s,
            ) by {
                assert forall|k: nat| agrees(true, k, args1[i], args2[i], s) by {
                    assert(agrees(true, k + 1, a, b, s));
                }
                lemma_symmetric(m, args1[i], args2[i], s);
            }
        },
        (
            Ty::Ref { sharedness, mutability, lifetime },
            Ty::Ref { sharedness: sharedness2, mutability: mutability2, lifetime: lifetime2 },
        ) => {
            assert forall|k: nat| agrees(true, k, *sharedness, *sharedness2, s) by {
                assert(agrees(true, k + 1, a, b, s));
            }
            assert forall|k: nat| agrees(true, k, *mutability, *mutability2, s) by {
                assert(agrees(true, k + 1, a, b, s));
            }
            assert forall|k: nat| agrees(true, k, *lifetime, *lifetime2, s) by {
                assert(agrees(true, k + 1, a, b, s));
            }
            lemma_symmetric(m, *sharedness, *sharedness2, s);
            lemma_symmetric(m, *mutability, *mutability2, s);
            lemma_symmetric(m, *lifetime, *lifetime2, s);
        },
        (Ty::Struct(_, types1, _), Ty::Struct(_, types2, _)) => {
            assert forall|i: int| 0 <= i < types2.len() implies agrees(
                true,
                m,
                #[trigger] types2[i],
                types1[i],
                s,
            ) by {
                assert forall|k: nat| agrees(true, k, types1[i], types2[i], s) by {
                    assert(agrees(true, k + 1, a, b, s));
                }
                lemma_symmetric(m, types1[i], types2[i], s);
            }
        },
        _ => {},
    }
}

/// Types that agree exactly agree.
proof fn lemma_exactly(exact: bool, n: nat, a: Ty, b: Ty, s: State)
    requires
        agrees(true, n, a, b, s),
    ensures
        agrees(exact, n, a, b, s),
    decreases n,
{
    if n > 0 {
        let m = (n - 1) as nat;
        match hop(a, s) {
            Some(a1) => lemma_exactly(exact, m, a1, b, s),
            None => match hop(b, s) {
                Some(b1) => lemma_exactly(exact, m, a, b1, s),
                None => match (a, b) {
                    (
                        Ty::Function { parameters, return_type, environment, effects, .. },
                        Ty::Function {
                            parameters: parameters2,
                            return_type: return_type2,
                            environment: environment2,
                            effects: effects2,
                            ..
                        },
                    ) => {
                        lemma_exactly(exact, m, *return_type2, *return_type, s);
                        lemma_exactly(exact, m, *environment, *environment2, s);
                        lemma_exactly(exact, m, *effects, *effects2, s);
                        assert forall|i: int|
                            0 <= i < parameters.len() && i < parameters2.len() implies agrees(
                            exact,
                            m,
                            #[trigger] parameters[i],
                            parameters2[i],
                            s,
                        ) by {
                            lemma_exactly(exact, m, parameters[i], parameters2[i], s);
                        }
                    },
                    (Ty::Application(c1, args1), Ty::Application(c2, args2)) => {
                        lemma_exactly(exact, m, *c1, *c2, s);
                        assert forall|i: int| 0 <= i < args1.len() implies agrees(
                            exact,
                            m,
                            #[trigger] args1[i],
                            args2[i],
                            s,
                        ) by {
                            lemma_exactly(exact, m, args1[i], args2[i], s);
                        }
                    },
                    (
                        Ty::Ref { sharedness, mutability, lifetime },
                        Ty::Ref {
                            sharedness: sharedness2,
                            mutability: mutability2,
                            lifetime: lifetime2,
                        },
                    ) => {
                        lemma_exactly(exact, m, *sharedness, *sharedness2, s);
                        lemma_exactly(exact, m, *mutability, *mutability2, s);
                        lemma_exactly(exact, m, *lifetime, *lifetime2, s);
                    },
                    (Ty::Struct(_, types1, _), Ty::Struct(_, types2, _)) => {
                        assert forall|i: int| 0 <= i < types1.len() implies agrees(
                            exact,
                            m,
                            #[trigger] types1[i],
                            types2[i],
                            s,
                        ) by {
                            lemma_exactly(exact, m, types1[i], types2[i], s);
                        }
                    },
                    _ => {},
                },
            },
        }
    }
}

/// Where `b` hops to `t`, and `t` agrees exactly with `a`, `a` agrees with `b`.
proof fn lemma_reversed(exact: bool, a: Ty, b: Ty, t: Ty, s: State)
    requires
        hop(b, s) == Some(t),
        agree(true, t, a, s),
    ensures
        agree(exact, a, b, s),
{
    assert forall|n: nat| agrees(exact, n, a, t, s) by {
        lemma_symmetric(n, t, a, s);
        lemma_exactly(exact, n, a, t, s);
    }
    lemma_hop_agree_right(exact, a, b, t, s);
}

proof fn lemma_insert_grows(s: State, id: TypeVariableId, t: Ty)
    requires
        s.is_unbound(id),
    ensures
        grows(s, s.insert(id, t)),
        s.insert(id, t).binding_of(id) == Some(Binding::Bound(t)),
{
}

/// The types of two lists, and of the rest of a type, agree as soon as all the parts do.
proof fn lemma_functions_agree(exact: bool, a: Ty, b: Ty, s: State)
    requires
        a is Function,
        b is Function,
        a->parameters.len() == b->parameters.len() || (a->has_varargs && b->parameters.len()
            >= a->parameters.len()) || (b->has_varargs && a->parameters.len()
            >= b->parameters.len()),
        all_agree(exact, a->parameters, b->parameters, s),
        agree(exact, *b->return_type, *a->return_type, s),
        agree(exact, *a->environment, *b->environment, s),
        agree(exact, *a->effects, *b->effects, s),
    ensures
        agree(exact, a, b, s),
{
    assert forall|n: nat| agrees(exact, n, a, b, s) by {
        if n > 0 {
            let m = (n - 1) as nat;
            assert(agrees(exact, m, *b->return_type, *a->return_type, s));
            assert(agrees(exact, m, *a->environment, *b->environment, s));
            assert(agrees(exact, m, *a->effects, *b->effects, s));
            let xs = a->parameters;
            let ys = b->parameters;
            assert forall|i: int| 0 <= i < xs.len() && i < ys.len() implies agrees(
                exact,
                m,
                #[trigger] xs[i],
                ys[i],
                s,
            ) by {
                assert(agree(exact, xs[i], ys[i], s));
            }
        }
    }
}

proof fn lemma_applications_agree(exact: bool, c1: Ty, c2: Ty, xs: Seq<Ty>, ys: Seq<Ty>, s: State)
    requires
        agree(exact, c1, c2, s),
        xs.len() == ys.len(),
        all_agree(exact, xs, ys, s),
    ensures
        agree(exact, Ty::Application(Box::new(c1), xs), Ty::Application(Box::new(c2), ys), s),
{
    let a = Ty::Application(Box::new(c1), xs);
    let b = Ty::Application(Box::new(c2), ys);
    assert forall|n: nat| agrees(exact, n, a, b, s) by {
        if n > 0 {
            let m = (n - 1) as nat;
            assert(agrees(exact, m, c1, c2, s));
            assert forall|i: int| 0 <= i < xs.len() implies agrees(
                exact,
                m,
                #[trigger] xs[i],
                ys[i],
                s,
            ) by {
                assert(agree(exact, xs[i], ys[i], s));
            }
        }
    }
}

proof fn lemma_refs_agree(exact: bool, a: Ty, b: Ty, s: State)
    requires
        a is Ref,
        b is Ref,
        agree(exact, *a->sharedness, *b->sharedness, s),
        agree(exact, *a->mutability, *b->mutability, s),
        agree(exact, *a->lifetime, *b->lifetime, s),
    ensures
        agree(exact, a, b, s),
{
    assert forall|n: nat| agrees(exact, n, a, b, s) by {
        if n > 0 {
            let m = (n - 1) as nat;
            assert(agrees(exact, m, *a->sharedness, *b->sharedness, s));
            assert(agrees(exact, m, *a->mutability, *b->mutability, s));
            assert(agrees(exact, m, *a->lifetime, *b->lifetime, s));
        }
    }
}

proof fn lemma_structs_agree(
    exact: bool,
    names: Seq<Seq<char>>,
    xs: Seq<Ty>,
    ys: Seq<Ty>,
    rest: TypeVariableId,
    s: State,
)
    requires
        xs.len() == ys.len(),
        all_agree(exact, xs, ys, s),
    ensures
        agree(exact, Ty::Struct(names, xs, rest), Ty::Struct(names, ys, rest), s),
{
    let a = Ty::Struct(names, xs, rest);
    let b = Ty::Struct(names, ys, rest);
    if hop(a, s) is Some {
        reveal_with_fuel(hops, 2);
        assert(hops(1, a, s) == hop(a, s));
        assert(hops(1, b, s) == hop(a, s));
        lemma_joined_agree(exact, a, b, 1, 1, s);
    } else {
        assert forall|n: nat| agrees(exact, n, a, b, s) by {
            if n > 0 {
                let m = (n - 1) as nat;
                assert forall|i: int| 0 <= i < xs.len() implies agrees(
                    exact,
                    m,
                    #[trigger] xs[i],
                    ys[i],
                    s,
                ) by {
                    assert(agree(exact, xs[i], ys[i], s));
                }
            }
        }
    }
}

/// Unification is sound: when it succeeds, and none of its steps was irregular, no binding was
/// lost and the types agree once the bindings found are taken into account.
pub proof fn law_unify_sound(exact: bool, depth: nat, a: Ty, b: Ty, s: State)
    ensures
        step_agrees(exact, unify_types(depth, a, b, s), a, b, s),
    decreases depth, 0nat, 0nat,
{
    let step = unify_types(depth, a, b, s);
    if went_well(exact, step) {
        let r = step->0;
        let d = (depth - 1) as nat;
        match (a, b) {
            (Ty::Variable(id), _) => lemma_variable_sound(exact, d, id, b, true, s),
            (_, Ty::Variable(id)) => lemma_variable_sound(exact, d, id, a, false, s),
            (
                Ty::Function { parameters, return_type, environment, effects, .. },
                Ty::Function {
                    parameters: parameters2,
                    return_type: return_type2,
                    environment: environment2,
                    effects: effects2,
                    ..
                },
            ) => {
                lemma_seq_sound(exact, d, parameters, parameters2, s);
                let t1 = unify_seq(d, parameters, parameters2, s)->0.state;
                law_unify_sound(exact, d, *return_type2, *return_type, t1);
                let t2 = unify_types(d, *return_type2, *return_type, t1)->0.state;
                law_unify_sound(exact, d, *environment, *environment2, t2);
                let t3 = unify_types(d, *environment, *environment2, t2)->0.state;
                law_unify_sound(exact, d, *effects, *effects2, t3);
                let t4 = unify_types(d, *effects, *effects2, t3)->0.state;
                lemma_grows_all(t2, t3, t4);
                lemma_grows_all(t1, t2, t4);
                lemma_grows_all(s, t1, t4);
                lemma_all_agree_stays(exact, parameters, parameters2, t1, t4);
                law_agreement_stays(exact, *return_type2, *return_type, t2, t4);
                law_agreement_stays(exact, *environment, *environment2, t3, t4);
                lemma_functions_agree(exact, a, b, t4);
            },
            (Ty::Application(c1, args1), Ty::Application(c2, args2)) => {
                law_unify_sound(exact, d, *c1, *c2, s);
                let t1 = unify_types(d, *c1, *c2, s)->0.state;
                lemma_seq_sound(exact, d, args1, args2, t1);
                let t2 = unify_seq(d, args1, args2, t1)->0.state;
                lemma_grows_all(s, t1, t2);
                law_agreement_stays(exact, *c1, *c2, t1, t2);
                lemma_applications_agree(exact, *c1, *c2, args1, args2, t2);
            },
            (
                Ty::Ref { sharedness, mutability, lifetime },
                Ty::Ref { sharedness: sharedness2, mutability: mutability2, lifetime: lifetime2 },
            ) => {
                law_unify_sound(exact, d, *sharedness, *sharedness2, s);
                let t1 = unify_types(d, *sharedness, *sharedness2, s)->0.state;
                law_unify_sound(exact, d, *mutability, *mutability2, t1);
                let t2 = unify_types(d, *mutability, *mutability2, t1)->0.state;
                law_unify_sound(exact, d, *lifetime, *lifetime2, t2);
                let t3 = unify_types(d, *lifetime, *lifetime2, t2)->0.state;
                lemma_grows_all(t1, t2, t3);
                lemma_grows_all(s, t1, t3);
                law_agreement_stays(exact, *sharedness, *sharedness2, t1, t3);
                law_agreement_stays(exact, *mutability, *mutability2, t2, t3);
                lemma_refs_agree(exact, a, b, t3);
            },
            (Ty::Struct(names1, types1, rest1), _) => match lookup(s.cache.type_bindings, rest1) {
                None => {},
                Some(Binding::Bound(t)) => {
                    law_unify_sound(exact, d, t, b, s);
                    assert(hop(a, s) == Some(t));
                    assert(hop(a, r.state) == Some(t));
                    lemma_hop_agree(exact, a, t, b, r.state);
                },
                Some(Binding::Unbound(_, _)) => match b {
                    Ty::Struct(names2, types2, rest2) => {
                        if let Some(Binding::Bound(t)) = lookup(s.cache.type_bindings, rest2) {
                            law_unify_sound(true, d, t, a, s);
                            assert(hop(b, s) == Some(t));
                            lemma_reversed(exact, a, b, t, r.state);
                        } else {
                            lemma_rows_sound(
                                exact,
                                d,
                                Row { names: names1, types: types1 },
                                rest1,
                                Row { names: names2, types: types2 },
                                rest2,
                                s,
                            );
                        }
                    },
                    _ => {
                        lemma_row_with_sound(
                            exact,
                            d,
                            Row { names: names1, types: types1 },
                            rest1,
                            b,
                            s,
                        );
                    },
                },
            },
            (_, Ty::Struct(names2, types2, rest2)) => {
                if let Some(Binding::Bound(t)) = lookup(s.cache.type_bindings, rest2) {
                    law_unify_sound(true, d, t, a, s);
                    assert(hop(b, s) == Some(t));
                    lemma_reversed(exact, a, b, t, r.state);
                } else {
                    let row = Row { names: names2, types: types2 };
                    lemma_row_with_sound(exact, d, row, rest2, a, s);
                }
            },
            (Ty::NamedGeneric(id1, _), _) => match s.binding_of(id1) {
                None => {},
                Some(Binding::Bound(t)) => {
                    law_unify_sound(exact, d, t, b, s);
                    assert(hop(a, r.state) == Some(t));
                    lemma_hop_agree(exact, a, t, b, r.state);
                },
                Some(Binding::Unbound(_, _)) => {
                    if let Ty::NamedGeneric(id2, _) = b {
                        if let Some(Binding::Bound(t)) = s.binding_of(id2) {
                            law_unify_sound(exact, d, a, t, s);
                            assert(hop(b, r.state) == Some(t));
                            lemma_hop_agree_right(exact, a, b, t, r.state);
                        } else if id1 == id2 {
                            assert(agree(exact, a, b, s));
                        } else {
                            lemma_insert_grows(s, id1, b);
                            law_agree_reflexive(exact, b, r.state);
                            lemma_hop_agree(exact, a, b, b, r.state);
                        }
                    }
                },
            },
            (_, Ty::NamedGeneric(id2, _)) => {
                if let Some(Binding::Bound(t)) = s.binding_of(id2) {
                    law_unify_sound(exact, d, a, t, s);
                    assert(hop(b, r.state) == Some(t));
                    lemma_hop_agree_right(exact, a, b, t, r.state);
                }
            },
            (Ty::Effects(effects1, extension1), Ty::Effects(effects2, extension2)) => {
                lemma_effects_grow(exact, d, effects1, extension1, effects2, extension2, s);
                assert(agree(exact, a, b, r.state));
            },
            _ => {},
        }
    }
}

/// Unifying the arguments of common effects keeps every binding.
pub proof fn lemma_common_grows(
    exact: bool,
    depth: nat,
    effects: Seq<Ty>,
    others: Seq<Ty>,
    s: State,
)
    ensures
        went_well(exact, unify_common(depth, effects, others, s)) ==> grows(
            s,
            unify_common(depth, effects, others, s)->0.state,
        ),
    decreases depth, 2nat, effects.len(),
{
    let step = unify_common(depth, effects, others, s);
    if effects.len() > 0 && went_well(exact, step) {
        match find_effect(others, effect_id(effects[0])) {
            None => lemma_common_grows(exact, depth, effects.skip(1), others, s),
            Some(i) => {
                let xs = effect_args(effects[0]);
                let ys = effect_args(others[i]);
                lemma_seq_sound(exact, depth, xs, ys, s);
                let t1 = unify_seq(depth, xs, ys, s)->0.state;
                lemma_common_grows(exact, depth, effects.skip(1), others, t1);
                lemma_grows_all(s, t1, step->0.state);
            },
        }
    }
}

/// Unifying rows of effects keeps every binding.
pub proof fn lemma_effects_grow(
    exact: bool,
    depth: nat,
    effects1: Seq<Ty>,
    extension1: Option<TypeVariableId>,
    effects2: Seq<Ty>,
    extension2: Option<TypeVariableId>,
    s: State,
)
    ensures
        went_well(
            exact,
            unify_effects(depth, effects1, extension1, effects2, extension2, s),
        ) ==> grows(
            s,
            unify_effects(depth, effects1, extension1, effects2, extension2, s)->0.state,
        ),
    decreases depth, 3nat, 0nat,
{
    let step = unify_effects(depth, effects1, extension1, effects2, extension2, s);
    if went_well(exact, step) {
        let types = s.solution.types;
        let vars = s.cache.type_bindings;
        let (xs, end1) = flatten(MAX_DEPTH as nat, effects1, extension1, types, vars)->0;
        let (ys, end2) = flatten(MAX_DEPTH as nat, effects2, extension2, types, vars)->0;
        lemma_common_grows(exact, depth, xs, ys, s);
        let s1 = unify_common(depth, xs, ys, s)->0.state;
        let only1 = effects_without(xs, ys);
        let only2 = effects_without(ys, xs);
        let end = step->0.state;
        match (end1, end2) {
            (None, None) => {},
            (Some(x), None) => {
                lemma_variable_sound(exact, depth, x, Ty::Effects(only2, None), true, s1);
                lemma_grows_all(s, s1, end);
            },
            (None, Some(y)) => {
                lemma_variable_sound(exact, depth, y, Ty::Effects(only1, None), true, s1);
                lemma_grows_all(s, s1, end);
            },
            (Some(x), Some(y)) => {
                if only1.len() == 0 && only2.len() == 0 {
                    lemma_variable_sound(exact, depth, x, Ty::Variable(y), true, s1);
                    lemma_grows_all(s, s1, end);
                } else {
                    let z = s1.cache.next_id();
                    let s2 = State {
                        solution: s1.solution,
                        cache: fresh_row(s1.cache, x, y)->0,
                    };
                    assert(grows(s1, s2));
                    let t1 = Ty::Effects(only2, Some(z));
                    let t2 = Ty::Effects(only1, Some(z));
                    lemma_variable_sound(exact, depth, x, t1, true, s2);
                    let s3 = unify_variable(depth, x, Ty::Variable(x), t1, true, s2)->0.state;
                    lemma_variable_sound(exact, depth, y, t2, true, s3);
                    lemma_grows_all(s, s1, s2);
                    lemma_grows_all(s, s2, s3);
                    lemma_grows_all(s, s3, end);
                }
            },
        }
    }
}

/// Unifying types pair by pair keeps every binding and makes the pairs agree.
pub proof fn lemma_seq_sound(exact: bool, depth: nat, xs: Seq<Ty>, ys: Seq<Ty>, s: State)
    ensures
        went_well(exact, unify_seq(depth, xs, ys, s)) ==> grows(
            s,
            unify_seq(depth, xs, ys, s)->0.state,
        ) && all_agree(exact, xs, ys, unify_seq(depth, xs, ys, s)->0.state),
    decreases depth, 1nat, xs.len(),
{
    let step = unify_seq(depth, xs, ys, s);
    if xs.len() > 0 && ys.len() > 0 && went_well(exact, step) {
        law_unify_sound(exact, depth, xs[0], ys[0], s);
        let t1 = unify_types(depth, xs[0], ys[0], s)->0.state;
        lemma_seq_sound(exact, depth, xs.skip(1), ys.skip(1), t1);
        let t2 = unify_seq(depth, xs.skip(1), ys.skip(1), t1)->0.state;
        lemma_grows_all(s, t1, t2);
        law_agreement_stays(exact, xs[0], ys[0], t1, t2);
        assert forall|i: int| 0 <= i < xs.len() && i < ys.len() implies agree(
            exact,
            #[trigger] xs[i],
            ys[i],
            t2,
        ) by {
            if i > 0 {
                assert(xs.skip(1)[i - 1] == xs[i]);
                assert(ys.skip(1)[i - 1] == ys[i]);
            }
        }
    }
}

proof fn lemma_variable_sound(
    exact: bool,
    depth: nat,
    id: TypeVariableId,
    b: Ty,
    on_lhs: bool,
    s: State,
)
    ensures
        on_lhs ==> step_agrees(
            exact,
            unify_variable(depth, id, Ty::Variable(id), b, on_lhs, s),
            Ty::Variable(id),
            b,
            s,
        ),
        !on_lhs ==> step_agrees(
            exact,
            unify_variable(depth, id, Ty::Variable(id), b, on_lhs, s),
            b,
            Ty::Variable(id),
            s,
        ),
    decreases depth, 1nat, 0nat,
{
    let a = Ty::Variable(id);
    let types = s.solution.types;
    let vars = s.cache.type_bindings;
    let step = unify_variable(depth, id, a, b, on_lhs, s);
    if went_well(exact, step) {
        let r = step->0;
        match s.binding_of(id) {
            None => {},
            Some(Binding::Bound(t)) => {
                assert(hop(a, s) == Some(t));
                if on_lhs {
                    law_unify_sound(exact, depth, t, b, s);
                    assert(hop(a, r.state) == Some(t));
                    lemma_hop_agree(exact, a, t, b, r.state);
                } else {
                    law_unify_sound(exact, depth, b, t, s);
                    assert(hop(a, r.state) == Some(t));
                    lemma_hop_agree_right(exact, b, a, t, r.state);
                }
            },
            Some(Binding::Unbound(level, _)) => {
                let end = follow(MAX_DEPTH as nat, b, types, vars)->0;
                let k = lemma_follow_is_hops(MAX_DEPTH as nat, b, s);
                if a == end {
                    lemma_joined_agree(exact, a, b, 0, k, s);
                } else {
                    let s2 = r.state;
                    assert(s2.solution.types == types.insert(id.0, end));
                    assert(s2.cache == s.cache);
                    assert(grows(s, s2));
                    lemma_hops_grow(k, b, s, s2);
                    assert(hop(a, s2) == Some(end));
                    reveal_with_fuel(hops, 2);
                    assert(hops(1, a, s2) == Some(end));
                    lemma_joined_agree(exact, a, b, 1, k, s2);
                }
            },
        }
    }
}

/// Merging keeps what the first row holds, and each field of the second row has one in the merged
/// row that agrees with it.
pub open spec fn merged_well(exact: bool, row1: Row, row2: Row, merged: Row, s: State) -> bool {
    &&& forall|name: Seq<char>|
        #![trigger merged.get(name)]
        row1.get(name) is Some ==> merged.get(name) == row1.get(name)
    &&& forall|j: int|
        0 <= j < row2.names.len() ==> (merged.get(#[trigger] row2.names[j]) matches Some(t)
            && agree(exact, t, row2.types[j], s))
    &&& merged.names.len() >= row1.names.len()
    &&& merged.names.len() == row1.names.len() ==> merged == row1
    &&& merged.sorted()
}

proof fn lemma_merge_sound(exact: bool, depth: nat, row1: Row, row2: Row, s: State)
    requires
        row1.sorted(),
        row2.names.len() == row2.types.len(),
    ensures
        merge_rows(depth, row1, row2, s) matches Some((r, merged)) ==> (went_well(
            exact,
            Some(r),
        ) ==> grows(s, r.state) && merged_well(exact, row1, row2, merged, r.state)),
    decreases depth, 2nat, row2.names.len(),
{
    let step = merge_rows(depth, row1, row2, s);
    if row2.names.len() > 0 && (step matches Some((r, _)) && went_well(exact, Some(r))) {
        let name = row2.names[0];
        let typ = row2.types[0];
        let rest = Row { names: row2.names.skip(1), types: row2.types.skip(1) };
        let (r, merged) = step->0;
        match row1.get(name) {
            None => {
                let row = row1.insert(name, typ);
                law_insert_sorted(row1, name, typ);
                law_insert_get(row1, name, typ, name);
                lemma_merge_sound(exact, depth, row, rest, s);
                law_agree_reflexive(exact, typ, r.state);
                assert forall|n: Seq<char>|
                    #![trigger merged.get(n)]
                    row1.get(n) is Some implies merged.get(n) == row1.get(n) by {
                    law_insert_get(row1, name, typ, n);
                    assert(row.get(n) is Some);
                }
                assert(row.get(name) is Some);
                assert(merged.get(name) == Some(typ));
            },
            Some(typ1) => {
                law_unify_sound(exact, depth, typ1, typ, s);
                let t1 = unify_types(depth, typ1, typ, s)->0.state;
                lemma_merge_sound(exact, depth, row1, rest, t1);
                lemma_grows_all(s, t1, r.state);
                law_agreement_stays(exact, typ1, typ, t1, r.state);
                assert(merged.get(name) == Some(typ1));
            },
        }
        assert forall|j: int| 0 <= j < row2.names.len() implies (merged.get(
            #[trigger] row2.names[j],
        ) matches Some(t) && agree(exact, t, row2.types[j], r.state)) by {
            if j > 0 {
                assert(rest.names[j - 1] == row2.names[j]);
                assert(rest.types[j - 1] == row2.types[j]);
            }
        }
    }
}

proof fn lemma_rows_sound(
    exact: bool,
    depth: nat,
    row1: Row,
    rest1: TypeVariableId,
    row2: Row,
    rest2: TypeVariableId,
    s: State,
)
    ensures
        step_agrees(
            exact,
            unify_rows(depth, row1, rest1, row2, rest2, s),
            Ty::Struct(row1.names, row1.types, rest1),
            Ty::Struct(row2.names, row2.types, rest2),
            s,
        ),
    decreases depth, 3nat, 0nat,
{
    let a = Ty::Struct(row1.names, row1.types, rest1);
    let b = Ty::Struct(row2.names, row2.types, rest2);
    let step = unify_rows(depth, row1, rest1, row2, rest2, s);
    if went_well(exact, step) {
        let r = step->0;
        let (first, merged) = merge_rows(depth, row1, row2, s)->0;
        let s1 = first.state;
        let n = merged.names.len();
        assert(row1.sorted() && row2.sorted());
        lemma_merge_sound(exact, depth, row1, row2, s);
        reveal_with_fuel(hops, 3);
        if n != row1.names.len() && n != row2.names.len() {
            lemma_variable_sound(exact, depth, rest1, Ty::Variable(rest2), true, s1);
            let second = unify_variable(
                depth,
                rest1,
                Ty::Variable(rest1),
                Ty::Variable(rest2),
                true,
                s1,
            );
            let s2 = second->0.state;
            let t = Ty::Struct(merged.names, merged.types, s2.cache.next_id());
            let s3 = State { solution: s2.solution, cache: fresh_row(s2.cache, rest1, rest2)->0 };
            assert forall|id: TypeVariableId|
                #![trigger s2.binding_of(id)]
                s2.binding_of(id) matches Some(Binding::Bound(_)) implies s3.binding_of(id)
                == s2.binding_of(id) by {}
            assert(s3.is_unbound(rest2));
            lemma_insert_grows(s3, rest2, t);
            let s4 = r.state;
            assert(s4 == s3.insert(rest2, t));
            lemma_grows_all(s2, s3, s4);
            lemma_grows_all(s1, s2, s4);
            lemma_grows_all(s, s1, s4);
            assert(hops(1, b, s4) == Some(t));
            if rest1 == rest2 {
                assert(hops(1, a, s4) == Some(t));
                lemma_joined_agree(exact, a, b, 1, 1, s4);
            } else if let Some(Binding::Bound(_)) = s1.binding_of(rest1) {
                let v = Ty::Variable(rest2);
                law_agreement_stays(exact, Ty::Variable(rest1), v, s2, s4);
                lemma_same_hop(exact, Ty::Variable(rest1), a, v, s4);
                lemma_other_same_hop(exact, a, v, b, s4);
            } else {
                assert(s1.is_unbound(rest1));
                assert(s2.is_unbound(rest2));
                assert(s1.is_unbound(rest2));
                assert(s2.binding_of(rest1) == Some(Binding::Bound(Ty::Variable(rest2))));
                assert(s4.binding_of(rest1) == Some(Binding::Bound(Ty::Variable(rest2))));
                assert(hop(a, s4) == Some(Ty::Variable(rest2)));
                assert(hop(Ty::Variable(rest2), s4) == Some(t));
                assert(hops(2, a, s4) == Some(t));
                lemma_joined_agree(exact, a, b, 2, 1, s4);
            }
        } else if n != row1.names.len() {
            let t = Ty::Struct(merged.names, merged.types, rest2);
            lemma_variable_sound(exact, depth, rest1, t, true, s1);
            let s2 = r.state;
            assert(s1.is_unbound(rest1));
            assert(s2.binding_of(rest1) == Some(Binding::Bound(t)));
            lemma_grows_all(s, s1, s2);
            law_same_names(row2, merged);
            assert forall|i: int| 0 <= i < row2.types.len() implies agree(
                exact,
                #[trigger] merged.types[i],
                row2.types[i],
                s2,
            ) by {
                lemma_sorted_get(merged, i);
                assert(merged.get(row2.names[i]) == Some(merged.types[i]));
                law_agreement_stays(exact, merged.types[i], row2.types[i], s1, s2);
            }
            lemma_structs_agree(exact, merged.names, merged.types, row2.types, rest2, s2);
            lemma_hop_agree(exact, a, t, b, s2);
        } else if n != row2.names.len() {
            let t = Ty::Struct(merged.names, merged.types, rest1);
            lemma_variable_sound(exact, depth, rest2, t, false, s1);
            let s2 = r.state;
            lemma_grows_all(s, s1, s2);
            assert(t == a);
            if let Some(Binding::Bound(_)) = s1.binding_of(rest2) {
                assert(hop(b, s1) is Some);
                lemma_other_same_hop(exact, a, Ty::Variable(rest2), b, s2);
            } else {
                assert(s2.binding_of(rest2) == Some(Binding::Bound(t)));
                assert(hops(1, b, s2) == Some(a));
                lemma_joined_agree(exact, a, b, 0, 1, s2);
            }
        } else {
            law_same_names(row2, merged);
            assert forall|i: int| 0 <= i < row2.types.len() implies agree(
                exact,
                #[trigger] merged.types[i],
                row2.types[i],
                s1,
            ) by {
                lemma_sorted_get(merged, i);
                assert(merged.get(row2.names[i]) == Some(merged.types[i]));
            }
            lemma_structs_agree(exact, merged.names, merged.types, row2.types, rest2, s1);
        }
    }
}

proof fn lemma_subset_grows(exact: bool, depth: nat, fields: Row, template: Row, s: State)
    ensures
        went_well(exact, unify_subset(depth, fields, template, s)) ==> grows(
            s,
            unify_subset(depth, fields, template, s)->0.state,
        ),
    decreases depth, 2nat, fields.names.len(),
{
    let step = unify_subset(depth, fields, template, s);
    if fields.names.len() > 0 && went_well(exact, step) {
        let t = template.get(fields.names[0])->0;
        law_unify_sound(exact, depth, t, fields.types[0], s);
        let t1 = unify_types(depth, t, fields.types[0], s)->0.state;
        let rest = Row { names: fields.names.skip(1), types: fields.types.skip(1) };
        lemma_subset_grows(exact, depth, rest, template, t1);
        lemma_grows_all(s, t1, step->0.state);
    }
}

proof fn lemma_row_with_sound(
    exact: bool,
    depth: nat,
    fields: Row,
    rest: TypeVariableId,
    other: Ty,
    s: State,
)
    ensures
        step_agrees(
            exact,
            unify_row_with(depth, fields, rest, other, s),
            Ty::Struct(fields.names, fields.types, rest),
            other,
            s,
        ),
        step_agrees(
            exact,
            unify_row_with(depth, fields, rest, other, s),
            other,
            Ty::Struct(fields.names, fields.types, rest),
            s,
        ),
    decreases depth, 3nat, 0nat,
{
    let a = Ty::Struct(fields.names, fields.types, rest);
    let step = unify_row_with(depth, fields, rest, other, s);
    if went_well(exact, step) {
        let r = step->0;
        let template = fields_of(MAX_DEPTH as nat, other, Seq::empty(), s)->0->0;
        lemma_subset_grows(exact, depth, fields, template, s);
        let s1 = unify_subset(depth, fields, template, s)->0.state;
        lemma_insert_grows(s1, rest, other);
        lemma_grows_all(s, s1, r.state);
        reveal_with_fuel(hops, 2);
        assert(hops(1, a, r.state) == Some(other));
        lemma_joined_agree(exact, a, other, 1, 0, r.state);
    }
}

/// The state in which nothing is bound but what the cache binds.
pub open spec fn committed(c: Cache) -> State {
    State { solution: Solution::empty(), cache: c }
}

/// Once a solution is committed to the cache, each type stands for the same as before.
pub proof fn lemma_commit_hops(s: State, t: Ty)
    requires
        is_proper(s),
        s.solution.known_to(s.cache),
        s.cache.type_bindings.len() <= usize::MAX,
    ensures
        hop(t, committed(s.cache.perform(s.solution))) == hop(t, s),
{
    let vars = s.cache.type_bindings;
    let bound = bind_all(vars, s.solution.types);
    assert(bound.len() == vars.len());
    assert forall|i: int| 0 <= i < s.solution.levels.len() implies (
    #[trigger] s.solution.levels[i]).0.0 < bound.len() by {}
    law_lowering_only_lowers(bound, s.solution.levels);
    match t {
        Ty::Variable(id) | Ty::NamedGeneric(id, _) | Ty::Struct(_, _, id) => {
            if id.0 < vars.len() {
                let after = lower_levels(bound, s.solution.levels)[id.0 as int];
                assert(bound[id.0 as int] == if s.solution.types.contains_key(id.0) {
                    Binding::Bound(s.solution.types[id.0])
                } else {
                    vars[id.0 as int]
                });
            }
        },
        _ => {},
    }
}

/// Once a solution is committed to the cache, types agree exactly if they did before.
pub proof fn lemma_commit_agrees(exact: bool, n: nat, a: Ty, b: Ty, s: State)
    requires
        is_proper(s),
        s.solution.known_to(s.cache),
        s.cache.type_bindings.len() <= usize::MAX,
    ensures
        agrees(exact, n, a, b, committed(s.cache.perform(s.solution))) == agrees(exact, n, a, b, s),
    decreases n,
{
    if n > 0 {
        let m = (n - 1) as nat;
        let s2 = committed(s.cache.perform(s.solution));
        lemma_commit_hops(s, a);
        lemma_commit_hops(s, b);
        match hop(a, s) {
            Some(a1) => lemma_commit_agrees(exact, m, a1, b, s),
            None => match hop(b, s) {
                Some(b1) => lemma_commit_agrees(exact, m, a, b1, s),
                None => match (a, b) {
                    (
                        Ty::Function { parameters, return_type, environment, effects, .. },
                        Ty::Function {
                            parameters: parameters2,
                            return_type: return_type2,
                            environment: environment2,
                            effects: effects2,
                            ..
                        },
                    ) => {
                        assert forall|i: int|
                            0 <= i < parameters.len() && i < parameters2.len() implies agrees(
                            exact,
                            m,
                            #[trigger] parameters[i],
                            parameters2[i],
                            s,
                        ) == agrees(exact, m, parameters[i], parameters2[i], s2) by {
                            lemma_commit_agrees(exact, m, parameters[i], parameters2[i], s);
                        }
                        lemma_commit_agrees(exact, m, *return_type2, *return_type, s);
                        lemma_commit_agrees(exact, m, *environment, *environment2, s);
                        lemma_commit_agrees(exact, m, *effects, *effects2, s);
                    },
                    (Ty::Application(c1, args1), Ty::Application(c2, args2)) => {
                        lemma_commit_agrees(exact, m, *c1, *c2, s);
                        if args1.len() == args2.len() {
                            assert forall|i: int| 0 <= i < args1.len() implies agrees(
                                exact,
                                m,
                                #[trigger] args1[i],
                                args2[i],
                                s,
                            ) == agrees(exact, m, args1[i], args2[i], s2) by {
                                lemma_commit_agrees(exact, m, args1[i], args2[i], s);
                            }
                        }
                    },
                    (
                        Ty::Ref { sharedness, mutability, lifetime },
                        Ty::Ref {
                            sharedness: sharedness2,
                            mutability: mutability2,
                            lifetime: lifetime2,
                        },
                    ) => {
                        lemma_commit_agrees(exact, m, *sharedness, *sharedness2, s);
                        lemma_commit_agrees(exact, m, *mutability, *mutability2, s);
                        lemma_commit_agrees(exact, m, *lifetime, *lifetime2, s);
                    },
                    (Ty::Struct(_, types1, _), Ty::Struct(_, types2, _)) => {
                        if types1.len() == types2.len() {
                            assert forall|i: int| 0 <= i < types1.len() implies agrees(
                                exact,
                                m,
                                #[trigger] types1[i],
                                types2[i],
                                s,
                            ) == agrees(exact, m, types1[i], types2[i], s2) by {
                                lemma_commit_agrees(exact, m, types1[i], types2[i], s);
                            }
                        }
                    },
                    _ => {},
                },
            },
        }
    }
}

/// Unifying two types makes them agree in the cache: if they unify, and none of the steps was
/// irregular, then once the result is committed to the cache no difference between them shows, and
/// whatever the cache bound before is bound as it was.
pub proof fn law_unify_makes_types_agree(
    exact: bool,
    actual: Ty,
    expected: Ty,
    location: Location,
    reason: Reason,
    c: Cache,
)
    requires
        went_well(exact, fresh_unification(actual, expected, c)),
        fresh_unification(actual, expected, c)->0.state.cache.type_bindings.len() <= usize::MAX,
    ensures
        after_unify(actual, expected, location, reason, c) matches Some(c1) && agree(
            exact,
            actual,
            expected,
            committed(c1),
        ) && (forall|id: TypeVariableId|
            #![trigger lookup(c.type_bindings, id)]
            lookup(c.type_bindings, id) matches Some(Binding::Bound(_)) ==> lookup(
                c1.type_bindings,
                id,
            ) == lookup(c.type_bindings, id)),
{
    let s0 = committed(c);
    let s = fresh_unification(actual, expected, c)->0.state;
    law_unify_sound(exact, MAX_DEPTH as nat, actual, expected, s0);
    law_unify_keeps(MAX_DEPTH as nat, actual, expected, s0);
    let c1 = s.cache.perform(s.solution);
    assert(is_proper(s0));
    assert forall|n: nat| agrees(exact, n, actual, expected, committed(c1)) by {
        lemma_commit_agrees(exact, n, actual, expected, s);
        assert(agrees(exact, n, actual, expected, s));
    }
    assert forall|id: TypeVariableId|
        #![trigger lookup(c.type_bindings, id)]
        lookup(c.type_bindings, id) matches Some(Binding::Bound(_)) implies lookup(
        c1.type_bindings,
        id,
    ) == lookup(c.type_bindings, id) by {
        let t = lookup(c.type_bindings, id)->0->Bound_0;
        lemma_commit_hops(s, Ty::Variable(id));
        assert(s.cache.type_bindings[id.0 as int] == c.type_bindings[id.0 as int]);
        assert(hop(Ty::Variable(id), s) == Some(t));
        assert(hop(Ty::Variable(id), committed(c1)) == Some(t));
    }
}

} // verus!
