//! Rows of effects that were unified hold the same effects.

use crate::agreement::{
    agree, agrees, all_agree, committed, grows, law_agree_reflexive, lemma_all_agree_stays,
    lemma_commit_agrees, lemma_commit_hops, lemma_common_grows, lemma_effects_grow, lemma_seq_sound,
    went_well,
};
use crate::bindings::bind_all;
use crate::cache::{Binding, Cache, Location, Reason};
use crate::effects::{
    effect_args, effect_id, effects_without, find_effect, flatten, lemma_find_effect,
};
use crate::occurs_laws::law_lowering_only_lowers;
use crate::resolve::{follow, MAX_DEPTH};
use crate::solve::{after_unify, fresh_unification};
use crate::types::{Ty, TypeVariableId};
use crate::unify::{
    after, failed, fresh_row, succeeded, unified, unify_common, unify_effects, unify_seq,
    unify_variable, State, Step,
};
use crate::unify_laws::{is_proper, law_unify_keeps, lemma_unify_common_keeps};
use vstd::prelude::*;

verus! {

/// Whether the effects have the same id, and arguments that agree.
pub open spec fn effect_agrees(exact: bool, a: Ty, b: Ty, s: State) -> bool {
    &&& effect_id(a) == effect_id(b)
    &&& effect_args(a).len() == effect_args(b).len()
    &&& all_agree(exact, effect_args(a), effect_args(b), s)
}

/// Whether the effect agrees with one of the others.
pub open spec fn agrees_with_one(exact: bool, a: Ty, ys: Seq<Ty>, s: State) -> bool {
    exists|j: int| 0 <= j < ys.len() && effect_agrees(exact, a, #[trigger] ys[j], s)
}

/// Whether one of the effects agrees with the other.
pub open spec fn one_agrees_with(exact: bool, xs: Seq<Ty>, b: Ty, s: State) -> bool {
    exists|i: int| 0 <= i < xs.len() && effect_agrees(exact, #[trigger] xs[i], b, s)
}

/// Whether each effect of the one list agrees with one of the other, in both directions.
pub open spec fn effects_agree(exact: bool, xs: Seq<Ty>, ys: Seq<Ty>, s: State) -> bool {
    &&& forall|i: int| 0 <= i < xs.len() ==> agrees_with_one(exact, #[trigger] xs[i], ys, s)
    &&& forall|j: int| 0 <= j < ys.len() ==> one_agrees_with(exact, xs, #[trigger] ys[j], s)
}

/// Whether no two of the effects have the same id.
pub open spec fn ids_differ(effects: Seq<Ty>) -> bool {
    forall|i: int, j: int|
        0 <= i < effects.len() && 0 <= j < effects.len() && effect_id(#[trigger] effects[i])
            == effect_id(#[trigger] effects[j]) ==> i == j
}

/// A row, with its extension followed as far as it is known.
pub open spec fn flat_row(
    depth: nat,
    effects: Seq<Ty>,
    extension: Option<TypeVariableId>,
    s: State,
) -> Option<(Seq<Ty>, Option<TypeVariableId>)> {
    flatten(depth, effects, extension, s.solution.types, s.cache.type_bindings)
}

/// Whether the rows hold effects that agree and end alike, however far they are followed.
pub open spec fn rows_agree(
    exact: bool,
    effects1: Seq<Ty>,
    extension1: Option<TypeVariableId>,
    effects2: Seq<Ty>,
    extension2: Option<TypeVariableId>,
    s: State,
) -> bool {
    forall|n: nat, m: nat|
        (#[trigger] flat_row(n, effects1, extension1, s)) is Some && (#[trigger] flat_row(
            m,
            effects2,
            extension2,
            s,
        )) is Some ==> {
            let (xs, end1) = flat_row(n, effects1, extension1, s)->0;
            let (ys, end2) = flat_row(m, effects2, extension2, s)->0;
            end1 == end2 && effects_agree(exact, xs, ys, s)
        }
}

/// Where more is bound, a row is followed as before and from there on.
proof fn lemma_flat_further(
    d: nat,
    n: nat,
    effects: Seq<Ty>,
    extension: Option<TypeVariableId>,
    s: State,
    r: State,
) -> (m: nat)
    requires
        grows(s, r),
        flat_row(d, effects, extension, s) is Some,
        flat_row(n, effects, extension, r) is Some,
    ensures
        ({
            let (xs, end) = flat_row(d, effects, extension, s)->0;
            flat_row(m, xs, end, r) == flat_row(n, effects, extension, r)
        }),
    decreases d,
{
    match extension {
        None => n,
        Some(id) => match s.binding_of(id) {
            Some(Binding::Bound(b)) => {
                assert(r.binding_of(id) == s.binding_of(id));
                let d1 = (d - 1) as nat;
                let n1 = (n - 1) as nat;
                match b {
                    Ty::Variable(v) => lemma_flat_further(d1, n1, effects, Some(v), s, r),
                    Ty::NamedGeneric(v, _) => lemma_flat_further(d1, n1, effects, Some(v), s, r),
                    Ty::Effects(more, end) => {
                        lemma_flat_further(d1, n1, effects + more, end, s, r)
                    },
                    _ => n,
                }
            },
            _ => n,
        },
    }
}

/// The effects whose id the others lack are some of the effects, and each of those is among them.
proof fn lemma_without(effects: Seq<Ty>, others: Seq<Ty>)
    ensures
        forall|k: int|
            0 <= k < effects_without(effects, others).len() ==> effects.contains(
                #[trigger] effects_without(effects, others)[k],
            ),
        forall|i: int|
            0 <= i < effects.len() && find_effect(others, effect_id(#[trigger] effects[i])) is None
                ==> effects_without(effects, others).contains(effects[i]),
    decreases effects.len(),
{
    if effects.len() > 0 {
        let front = effects.drop_last();
        let last = effects.last();
        lemma_without(front, others);
        let before = effects_without(front, others);
        let all = effects_without(effects, others);
        assert forall|k: int| 0 <= k < all.len() implies effects.contains(#[trigger] all[k]) by {
            if k < before.len() {
                assert(all[k] == before[k]);
                let i = choose|i: int| 0 <= i < front.len() && front[i] == before[k];
                assert(effects[i] == all[k]);
            } else {
                assert(effects[effects.len() - 1] == all[k]);
            }
        }
        assert forall|i: int|
            0 <= i < effects.len() && find_effect(
                others,
                effect_id(#[trigger] effects[i]),
            ) is None implies all.contains(effects[i]) by {
            if i < front.len() {
                assert(front[i] == effects[i]);
                let k = choose|k: int| 0 <= k < before.len() && before[k] == effects[i];
                assert(all[k] == effects[i]);
            } else {
                assert(all[all.len() - 1] == effects[i]);
            }
        }
    }
}

/// Unifying the arguments of common effects makes each agree with the first of its id.
proof fn lemma_common_agree(exact: bool, depth: nat, effects: Seq<Ty>, others: Seq<Ty>, s: State)
    requires
        went_well(exact, unify_common(depth, effects, others, s)),
    ensures
        forall|i: int|
            0 <= i < effects.len() && find_effect(others, effect_id(#[trigger] effects[i])) is Some
                ==> effect_agrees(
                exact,
                effects[i],
                others[find_effect(others, effect_id(effects[i]))->0],
                unify_common(depth, effects, others, s)->0.state,
            ),
    decreases effects.len(),
{
    if effects.len() > 0 {
        let rest = effects.skip(1);
        let r = unify_common(depth, effects, others, s)->0.state;
        let found = find_effect(others, effect_id(effects[0]));
        lemma_find_effect(others, effect_id(effects[0]));
        match found {
            None => {
                lemma_common_agree(exact, depth, rest, others, s);
            },
            Some(k) => {
                let xs = effect_args(effects[0]);
                let ys = effect_args(others[k]);
                lemma_seq_sound(exact, depth, xs, ys, s);
                let t1 = unify_seq(depth, xs, ys, s)->0.state;
                lemma_common_agree(exact, depth, rest, others, t1);
                lemma_common_grows(exact, depth, rest, others, t1);
                lemma_all_agree_stays(exact, xs, ys, t1, r);
            },
        }
        assert forall|i: int|
            0 <= i < effects.len() && find_effect(
                others,
                effect_id(#[trigger] effects[i]),
            ) is Some implies effect_agrees(
            exact,
            effects[i],
            others[find_effect(others, effect_id(effects[i]))->0],
            r,
        ) by {
            if i > 0 {
                assert(rest[i - 1] == effects[i]);
            }
        }
    }
}

proof fn lemma_effect_agrees_itself(exact: bool, a: Ty, s: State)
    ensures
        effect_agrees(exact, a, a, s),
{
    assert forall|i: int| 0 <= i < effect_args(a).len() implies agree(
        exact,
        #[trigger] effect_args(a)[i],
        effect_args(a)[i],
        s,
    ) by {
        law_agree_reflexive(exact, effect_args(a)[i], s);
    }
}

/// Two lists of effects agree once each has what only the other had, if the common ones do.
proof fn lemma_joined_effects_agree(
    exact: bool,
    xs: Seq<Ty>,
    ys: Seq<Ty>,
    more1: Seq<Ty>,
    more2: Seq<Ty>,
    s: State,
)
    requires
        ids_differ(ys),
        forall|i: int|
            0 <= i < xs.len() && find_effect(ys, effect_id(#[trigger] xs[i])) is Some
                ==> effect_agrees(exact, xs[i], ys[find_effect(ys, effect_id(xs[i]))->0], s),
        more1 == effects_without(ys, xs),
        more2 == effects_without(xs, ys),
    ensures
        effects_agree(exact, xs + more1, ys + more2, s),
{
    let all1 = xs + more1;
    let all2 = ys + more2;
    lemma_without(xs, ys);
    lemma_without(ys, xs);
    assert forall|i: int| 0 <= i < all1.len() implies agrees_with_one(
        exact,
        #[trigger] all1[i],
        all2,
        s,
    ) by {
        if i < xs.len() {
            assert(all1[i] == xs[i]);
            lemma_find_effect(ys, effect_id(xs[i]));
            match find_effect(ys, effect_id(xs[i])) {
                Some(j) => {
                    assert(all2[j] == ys[j]);
                },
                None => {
                    let k = choose|k: int| 0 <= k < more2.len() && more2[k] == xs[i];
                    lemma_effect_agrees_itself(exact, xs[i], s);
                    assert(all2[ys.len() + k] == more2[k]);
                },
            }
        } else {
            let e = more1[i - xs.len()];
            assert(all1[i] == e);
            assert(ys.contains(e));
            let j = choose|j: int| 0 <= j < ys.len() && ys[j] == e;
            lemma_effect_agrees_itself(exact, e, s);
            assert(all2[j] == e);
        }
    }
    assert forall|j: int| 0 <= j < all2.len() implies one_agrees_with(
        exact,
        all1,
        #[trigger] all2[j],
        s,
    ) by {
        if j < ys.len() {
            assert(all2[j] == ys[j]);
            lemma_find_effect(xs, effect_id(ys[j]));
            match find_effect(xs, effect_id(ys[j])) {
                Some(i) => {
                    lemma_find_effect(ys, effect_id(xs[i]));
                    assert(find_effect(ys, effect_id(xs[i])) == Some(j));
                    assert(all1[i] == xs[i]);
                },
                None => {
                    let k = choose|k: int| 0 <= k < more1.len() && more1[k] == ys[j];
                    lemma_effect_agrees_itself(exact, ys[j], s);
                    assert(all1[xs.len() + k] == more1[k]);
                },
            }
        } else {
            let e = more2[j - ys.len()];
            assert(all2[j] == e);
            assert(xs.contains(e));
            let i = choose|i: int| 0 <= i < xs.len() && xs[i] == e;
            lemma_effect_agrees_itself(exact, e, s);
            assert(all1[i] == e);
        }
    }
}

/// Whether the variables that extend the rows are unbound once the arguments of the effects that
/// the rows have in common were unified.
pub open spec fn ends_stay_open(
    depth: nat,
    effects1: Seq<Ty>,
    extension1: Option<TypeVariableId>,
    effects2: Seq<Ty>,
    extension2: Option<TypeVariableId>,
    s: State,
) -> bool {
    match (
        flat_row(MAX_DEPTH as nat, effects1, extension1, s),
        flat_row(MAX_DEPTH as nat, effects2, extension2, s),
    ) {
        (Some((xs, end1)), Some((ys, end2))) => unify_common(depth, xs, ys, s) matches Some(
            common,
        ) && {
            &&& ids_differ(ys)
            &&& end1 matches Some(x) ==> common.state.is_unbound(x)
            &&& end2 matches Some(y) ==> common.state.is_unbound(y)
        },
        _ => false,
    }
}

/// Unifying an unbound variable with a row binds it to the row, and nothing else.
proof fn lemma_bound_to_row(depth: nat, x: TypeVariableId, t: Ty, s: State)
    requires
        s.is_unbound(x),
        t is Effects,
        unify_variable(depth, x, Ty::Variable(x), t, true, s) matches Some(step) && step.ok,
    ensures
        ({
            let r = unify_variable(depth, x, Ty::Variable(x), t, true, s)->0.state;
            &&& r.cache == s.cache
            &&& forall|v: TypeVariableId| #[trigger]
                r.binding_of(v) == if v == x {
                    Some(Binding::Bound(t))
                } else {
                    s.binding_of(v)
                }
        }),
{
    let r = unify_variable(depth, x, Ty::Variable(x), t, true, s)->0.state;
    assert(follow(MAX_DEPTH as nat, t, s.solution.types, s.cache.type_bindings) == Some(t));
    assert forall|v: TypeVariableId| #[trigger] r.binding_of(v) == if v == x {
        Some(Binding::Bound(t))
    } else {
        s.binding_of(v)
    } by {
        assert(s.binding_of(x) is Some);
    }
}

/// Where a row ends in a variable that is bound to a row, that row is all that follows.
proof fn lemma_flat_end(
    n: nat,
    effects: Seq<Ty>,
    x: TypeVariableId,
    more: Seq<Ty>,
    end: Option<TypeVariableId>,
    s: State,
)
    requires
        s.binding_of(x) == Some(Binding::Bound(Ty::Effects(more, end))),
        end matches Some(z) ==> s.is_unbound(z),
        flat_row(n, effects, Some(x), s) is Some,
    ensures
        flat_row(n, effects, Some(x), s) == Some((effects + more, end)),
{
    let d = (n - 1) as nat;
    assert(flat_row(n, effects, Some(x), s) == flat_row(d, effects + more, end, s));
}

/// Rows of effects that were unified hold effects that agree, each in the one with one in the
/// other, and end alike. No effect is to stand twice in the second row, and unifying the arguments
/// of the effects is not to bind the variables that extend the rows.
pub proof fn law_unified_effects_agree(
    exact: bool,
    depth: nat,
    effects1: Seq<Ty>,
    extension1: Option<TypeVariableId>,
    effects2: Seq<Ty>,
    extension2: Option<TypeVariableId>,
    s: State,
)
    requires
        s.solution.known_to(s.cache),
        went_well(exact, unify_effects(depth, effects1, extension1, effects2, extension2, s)),
        ends_stay_open(depth, effects1, extension1, effects2, extension2, s),
        unify_effects(
            depth,
            effects1,
            extension1,
            effects2,
            extension2,
            s,
        )->0.state.cache.type_bindings.len() <= usize::MAX,
    ensures
        rows_agree(
            exact,
            effects1,
            extension1,
            effects2,
            extension2,
            unify_effects(depth, effects1, extension1, effects2, extension2, s)->0.state,
        ),
{
    let r = unify_effects(depth, effects1, extension1, effects2, extension2, s)->0.state;
    let (xs, end1) = flat_row(MAX_DEPTH as nat, effects1, extension1, s)->0;
    let (ys, end2) = flat_row(MAX_DEPTH as nat, effects2, extension2, s)->0;
    let s1 = unify_common(depth, xs, ys, s)->0.state;
    lemma_effects_grow(exact, depth, effects1, extension1, effects2, extension2, s);
    lemma_common_agree(exact, depth, xs, ys, s);
    lemma_common_grows(exact, depth, xs, ys, s);
    let only1 = effects_without(xs, ys);
    let only2 = effects_without(ys, xs);
    lemma_unify_common_keeps(depth, xs, ys, s);
    lemma_ends_meet(depth, 0, 0, xs, end1, ys, end2, s1);
    assert forall|i: int|
        0 <= i < xs.len() && find_effect(
            ys,
            effect_id(#[trigger] xs[i]),
        ) is Some implies effect_agrees(
        exact,
        xs[i],
        ys[find_effect(ys, effect_id(xs[i]))->0],
        r,
    ) by {
        let y = ys[find_effect(ys, effect_id(xs[i]))->0];
        lemma_all_agree_stays(exact, effect_args(xs[i]), effect_args(y), s1, r);
    }
    lemma_joined_effects_agree(exact, xs, ys, only2, only1, r);
    assert forall|n: nat, m: nat|
        (#[trigger] flat_row(n, effects1, extension1, r)) is Some && (#[trigger] flat_row(
            m,
            effects2,
            extension2,
            r,
        )) is Some implies {
        let (fs, e1) = flat_row(n, effects1, extension1, r)->0;
        let (gs, e2) = flat_row(m, effects2, extension2, r)->0;
        e1 == e2 && effects_agree(exact, fs, gs, r)
    } by {
        let n1 = lemma_flat_further(MAX_DEPTH as nat, n, effects1, extension1, s, r);
        let m1 = lemma_flat_further(MAX_DEPTH as nat, m, effects2, extension2, s, r);
        lemma_ends_meet(depth, n1, m1, xs, end1, ys, end2, s1);
    }
}

/// The step after the arguments of common effects were unified.
spec fn last_step(
    depth: nat,
    xs: Seq<Ty>,
    end1: Option<TypeVariableId>,
    ys: Seq<Ty>,
    end2: Option<TypeVariableId>,
    s1: State,
) -> Option<Step> {
    let only1 = effects_without(xs, ys);
    let only2 = effects_without(ys, xs);
    match (end1, end2) {
        (None, None) => if only1.len() == 0 && only2.len() == 0 {
            unified(s1)
        } else {
            failed(s1)
        },
        (Some(x), None) => if only1.len() == 0 {
            unify_variable(depth, x, Ty::Variable(x), Ty::Effects(only2, None), true, s1)
        } else {
            failed(s1)
        },
        (None, Some(y)) => if only2.len() == 0 {
            unify_variable(depth, y, Ty::Variable(y), Ty::Effects(only1, None), true, s1)
        } else {
            failed(s1)
        },
        (Some(x), Some(y)) => if only1.len() == 0 && only2.len() == 0 {
            unify_variable(depth, x, Ty::Variable(x), Ty::Variable(y), true, s1)
        } else if x == y {
            failed(s1)
        } else {
            match fresh_row(s1.cache, x, y) {
                None => None,
                Some(c) => {
                    let z = s1.cache.next_id();
                    let s2 = State { solution: s1.solution, cache: c };
                    let second = unify_variable(
                        depth,
                        x,
                        Ty::Variable(x),
                        Ty::Effects(only2, Some(z)),
                        true,
                        s2,
                    );
                    if !succeeded(second) {
                        second
                    } else {
                        after(
                            second->0.manner,
                            unify_variable(
                                depth,
                                y,
                                Ty::Variable(y),
                                Ty::Effects(only1, Some(z)),
                                true,
                                second->0.state,
                            ),
                        )
                    }
                },
            }
        },
    }
}

/// Where the ends of the rows are open, the last step keeps every binding, and both rows end alike
/// and have what only the other had.
proof fn lemma_ends_meet(
    depth: nat,
    n: nat,
    m: nat,
    xs: Seq<Ty>,
    end1: Option<TypeVariableId>,
    ys: Seq<Ty>,
    end2: Option<TypeVariableId>,
    s1: State,
)
    requires
        s1.solution.known_to(s1.cache),
        end1 matches Some(x) ==> s1.is_unbound(x),
        end2 matches Some(y) ==> s1.is_unbound(y),
        last_step(depth, xs, end1, ys, end2, s1) matches Some(step) && step.ok
            && step.state.cache.type_bindings.len() <= usize::MAX,
    ensures
        ({
            let r = last_step(depth, xs, end1, ys, end2, s1)->0.state;
            &&& grows(s1, r)
            &&& match (flat_row(n, xs, end1, r), flat_row(m, ys, end2, r)) {
                (Some((fs, e1)), Some((gs, e2))) => {
                    &&& e1 == e2
                    &&& fs == xs + effects_without(ys, xs)
                    &&& gs == ys + effects_without(xs, ys)
                },
                _ => true,
            }
        }),
{
    let only1 = effects_without(xs, ys);
    let only2 = effects_without(ys, xs);
    let r = last_step(depth, xs, end1, ys, end2, s1)->0.state;
    if only1.len() == 0 {
        assert(ys + only1 =~= ys);
    }
    if only2.len() == 0 {
        assert(xs + only2 =~= xs);
    }
    match (end1, end2) {
        (None, None) => {},
        (Some(x), None) => {
            lemma_bound_to_row(depth, x, Ty::Effects(only2, None), s1);
            if flat_row(n, xs, end1, r) is Some {
                lemma_flat_end(n, xs, x, only2, None, r);
            }
        },
        (None, Some(y)) => {
            lemma_bound_to_row(depth, y, Ty::Effects(only1, None), s1);
            if flat_row(m, ys, end2, r) is Some {
                lemma_flat_end(m, ys, y, only1, None, r);
            }
        },
        (Some(x), Some(y)) => {
            if only1.len() == 0 && only2.len() == 0 {
                let v = Ty::Variable(y);
                assert(follow(
                    MAX_DEPTH as nat,
                    v,
                    s1.solution.types,
                    s1.cache.type_bindings,
                ) == Some(v));
                if x != y {
                    assert(r.binding_of(x) == Some(Binding::Bound(v)));
                    assert(r.binding_of(y) == s1.binding_of(y));
                    assert(r.is_unbound(y));
                    if flat_row(n, xs, end1, r) is Some {
                        assert(flat_row(n, xs, end1, r) == flat_row(
                            (n - 1) as nat,
                            xs,
                            Some(y),
                            r,
                        ));
                    }
                }
            } else {
                let z = s1.cache.next_id();
                let s2 = State { solution: s1.solution, cache: fresh_row(s1.cache, x, y)->0 };
                let t1 = Ty::Effects(only2, Some(z));
                let t2 = Ty::Effects(only1, Some(z));
                assert(s2.binding_of(x) == s1.binding_of(x));
                assert(s2.binding_of(y) == s1.binding_of(y));
                lemma_bound_to_row(depth, x, t1, s2);
                let s3 = unify_variable(depth, x, Ty::Variable(x), t1, true, s2)->0.state;
                assert(s3.binding_of(y) == s2.binding_of(y));
                lemma_bound_to_row(depth, y, t2, s3);
                assert(s1.cache.type_bindings.len() < s2.cache.type_bindings.len());
                assert(!s1.solution.types.contains_key(z.0));
                assert(s2.is_unbound(z));
                assert(z != x && z != y);
                assert(r.binding_of(z) == s3.binding_of(z));
                assert(s3.binding_of(z) == s2.binding_of(z));
                assert(r.is_unbound(z));
                assert(r.binding_of(x) == s3.binding_of(x));
                assert forall|id: TypeVariableId|
                    #![trigger s1.binding_of(id)]
                    s1.binding_of(id) matches Some(Binding::Bound(_)) implies r.binding_of(id)
                    == s1.binding_of(id) by {
                    assert(s2.binding_of(id) == s1.binding_of(id));
                    assert(s3.binding_of(id) == s2.binding_of(id));
                }
                if flat_row(n, xs, end1, r) is Some {
                    lemma_flat_end(n, xs, x, only2, Some(z), r);
                }
                if flat_row(m, ys, end2, r) is Some {
                    lemma_flat_end(m, ys, y, only1, Some(z), r);
                }
            }
        },
    }
}

/// Once a solution is committed to the cache, a row is followed as before.
proof fn lemma_commit_flat(
    n: nat,
    effects: Seq<Ty>,
    extension: Option<TypeVariableId>,
    s: State,
)
    requires
        is_proper(s),
        s.solution.known_to(s.cache),
        s.cache.type_bindings.len() <= usize::MAX,
    ensures
        flat_row(n, effects, extension, committed(s.cache.perform(s.solution))) == flat_row(
            n,
            effects,
            extension,
            s,
        ),
    decreases n,
{
    if n > 0 {
        if let Some(id) = extension {
            let d = (n - 1) as nat;
            let r = committed(s.cache.perform(s.solution));
            lemma_commit_hops(s, Ty::Variable(id));
            lemma_commit_known(s, id);
            match s.binding_of(id) {
                Some(Binding::Bound(b)) => match b {
                    Ty::Variable(v) => lemma_commit_flat(d, effects, Some(v), s),
                    Ty::NamedGeneric(v, _) => lemma_commit_flat(d, effects, Some(v), s),
                    Ty::Effects(more, end) => lemma_commit_flat(d, effects + more, end, s),
                    _ => {},
                },
                _ => {},
            }
        }
    }
}

/// Once a solution is committed to the cache, the same variables are known.
proof fn lemma_commit_known(s: State, id: TypeVariableId)
    requires
        s.solution.known_to(s.cache),
    ensures
        committed(s.cache.perform(s.solution)).binding_of(id) is None <==> s.binding_of(id) is None,
{
    let bound = bind_all(s.cache.type_bindings, s.solution.types);
    assert(bound.len() == s.cache.type_bindings.len());
    assert forall|i: int| 0 <= i < s.solution.levels.len() implies (
    #[trigger] s.solution.levels[i]).0.0 < bound.len() by {}
    law_lowering_only_lowers(bound, s.solution.levels);
}

proof fn lemma_commit_effect_agrees(exact: bool, a: Ty, b: Ty, s: State)
    requires
        is_proper(s),
        s.solution.known_to(s.cache),
        s.cache.type_bindings.len() <= usize::MAX,
        effect_agrees(exact, a, b, s),
    ensures
        effect_agrees(exact, a, b, committed(s.cache.perform(s.solution))),
{
    let r = committed(s.cache.perform(s.solution));
    let xs = effect_args(a);
    let ys = effect_args(b);
    assert forall|i: int| 0 <= i < xs.len() && i < ys.len() implies agree(
        exact,
        #[trigger] xs[i],
        ys[i],
        r,
    ) by {
        assert(agree(exact, xs[i], ys[i], s));
        assert forall|n: nat| agrees(exact, n, xs[i], ys[i], r) by {
            lemma_commit_agrees(exact, n, xs[i], ys[i], s);
            assert(agrees(exact, n, xs[i], ys[i], s));
        }
    }
}

/// Unifying two rows of effects makes them agree in the cache: once the result is committed, they
/// hold effects that agree and end alike, under the conditions of `law_unified_effects_agree`.
pub proof fn law_unify_makes_effects_agree(
    exact: bool,
    effects1: Seq<Ty>,
    extension1: Option<TypeVariableId>,
    effects2: Seq<Ty>,
    extension2: Option<TypeVariableId>,
    location: Location,
    reason: Reason,
    c: Cache,
)
    requires
        went_well(
            exact,
            fresh_unification(
                Ty::Effects(effects1, extension1),
                Ty::Effects(effects2, extension2),
                c,
            ),
        ),
        ends_stay_open(
            (MAX_DEPTH - 1) as nat,
            effects1,
            extension1,
            effects2,
            extension2,
            committed(c),
        ),
        fresh_unification(
            Ty::Effects(effects1, extension1),
            Ty::Effects(effects2, extension2),
            c,
        )->0.state.cache.type_bindings.len() <= usize::MAX,
    ensures
        after_unify(
            Ty::Effects(effects1, extension1),
            Ty::Effects(effects2, extension2),
            location,
            reason,
            c,
        ) matches Some(c1) && rows_agree(
            exact,
            effects1,
            extension1,
            effects2,
            extension2,
            committed(c1),
        ),
{
    let a = Ty::Effects(effects1, extension1);
    let b = Ty::Effects(effects2, extension2);
    let s0 = committed(c);
    let d = (MAX_DEPTH - 1) as nat;
    let s = fresh_unification(a, b, c)->0.state;
    let r = committed(s.cache.perform(s.solution));
    law_unified_effects_agree(exact, d, effects1, extension1, effects2, extension2, s0);
    law_unify_keeps(MAX_DEPTH as nat, a, b, s0);
    assert(is_proper(s0));
    assert forall|n: nat, m: nat|
        (#[trigger] flat_row(n, effects1, extension1, r)) is Some && (#[trigger] flat_row(
            m,
            effects2,
            extension2,
            r,
        )) is Some implies {
        let (xs, end1) = flat_row(n, effects1, extension1, r)->0;
        let (ys, end2) = flat_row(m, effects2, extension2, r)->0;
        end1 == end2 && effects_agree(exact, xs, ys, r)
    } by {
        lemma_commit_flat(n, effects1, extension1, s);
        lemma_commit_flat(m, effects2, extension2, s);
        let (xs, end1) = flat_row(n, effects1, extension1, s)->0;
        let (ys, end2) = flat_row(m, effects2, extension2, s)->0;
        assert(end1 == end2 && effects_agree(exact, xs, ys, s));
        assert forall|i: int| 0 <= i < xs.len() implies agrees_with_one(
            exact,
            #[trigger] xs[i],
            ys,
            r,
        ) by {
            assert(agrees_with_one(exact, xs[i], ys, s));
            let j = choose|j: int|
                0 <= j < ys.len() && effect_agrees(exact, xs[i], #[trigger] ys[j], s);
            lemma_commit_effect_agrees(exact, xs[i], ys[j], s);
        }
        assert forall|j: int| 0 <= j < ys.len() implies one_agrees_with(
            exact,
            xs,
            #[trigger] ys[j],
            r,
        ) by {
            assert(one_agrees_with(exact, xs, ys[j], s));
            let i = choose|i: int|
                0 <= i < xs.len() && effect_agrees(exact, #[trigger] xs[i], ys[j], s);
            lemma_commit_effect_agrees(exact, xs[i], ys[j], s);
        }
    }
}

} // verus!
