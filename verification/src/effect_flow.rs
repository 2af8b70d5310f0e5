//! Which effects a row holds, however far its extension is followed, and how joining and unifying
//! rows lets effects pass from one to the other.

use crate::accord::{
    all_clean, clean, fieldless, lemma_both_clean, lemma_common_regular, lemma_effects_regular,
    lemma_flatten_clean, lemma_fresh_quiet, lemma_perform_length, lemma_stay_further,
    lemma_stay_grow, lemma_unify_regular, lemma_variable_regular, lemma_without_clean, quiet, small,
};
use crate::agreement::{
    committed, grows, hop, law_unify_sound, lemma_commit_hops, lemma_effects_grow,
};
use crate::cache::{Binding, Cache};
use crate::effect_laws::law_missing_from;
use crate::effect_sets::{combined, flat, lemma_flat_end, missing_from, EffectRow};
use crate::effects::{effect_id, effects_without, find_effect, flatten, lemma_find_effect};
use crate::inference_laws::law_combining_goes_on;
use crate::progress::{gains, law_unification_goes_on};
use crate::resolve::{follow, MAX_DEPTH};
use crate::solve::fresh_unification;
use crate::types::{EffectInfoId, Ty, TypeVariableId};
use crate::unify::{
    fresh_row, succeeded, unify_common, unify_effects, unify_types, unify_variable, State,
};
use crate::unify_laws::{
    is_proper, law_unify_keeps, lemma_keeps_fresh, lemma_unify_common_keeps,
    lemma_unify_variable_keeps,
};
use vstd::prelude::*;

verus! {

/// Whether one of the effects is a wanted one.
pub open spec fn any_of(effects: Seq<Ty>, wanted: spec_fn(Ty) -> bool) -> bool {
    exists|i: int| 0 <= i < effects.len() && wanted(#[trigger] effects[i])
}

/// The effect itself, at the same arguments.
pub open spec fn is_effect(e: Ty) -> spec_fn(Ty) -> bool {
    |t: Ty| t == e
}

/// The effect with the given id, at any arguments.
pub open spec fn has_id(id: EffectInfoId) -> spec_fn(Ty) -> bool {
    |t: Ty| effect_id(t) == id
}

/// The row that a type is, or stands for if it is a variable. A type that is no row holds none.
pub open spec fn type_row(t: Ty) -> EffectRow {
    match t {
        Ty::Variable(v) | Ty::NamedGeneric(v, _) => only_open(v),
        Ty::Effects(effects, extension) => (effects, extension),
        _ => (Seq::empty(), None),
    }
}

/// The row that a variable is bound to.
pub open spec fn bound_row(v: TypeVariableId, s: State) -> Option<EffectRow> {
    match s.binding_of(v) {
        Some(Binding::Bound(t)) => Some(type_row(t)),
        _ => None,
    }
}

/// Whether a wanted effect is found in the row within `n` bindings of its extension.
pub open spec fn found(n: nat, row: EffectRow, wanted: spec_fn(Ty) -> bool, s: State) -> bool
    decreases n,
{
    any_of(row.0, wanted) || (n > 0 && row.1 is Some && bound_row(row.1->0, s) is Some && found(
        (n - 1) as nat,
        bound_row(row.1->0, s)->0,
        wanted,
        s,
    ))
}

/// Whether the row is open in the variable after at most `n` bindings of its extension.
pub open spec fn open_in(n: nat, row: EffectRow, v: TypeVariableId, s: State) -> bool
    decreases n,
{
    match row.1 {
        None => false,
        Some(w) => match bound_row(w, s) {
            None => w == v,
            Some(next) => n > 0 && open_in((n - 1) as nat, next, v, s),
        },
    }
}

/// Whether a wanted effect is in the row.
pub open spec fn row_has(row: EffectRow, wanted: spec_fn(Ty) -> bool, s: State) -> bool {
    exists|n: nat| found(n, row, wanted, s)
}

/// Whether the row is open in the variable.
pub open spec fn row_ends(row: EffectRow, v: TypeVariableId, s: State) -> bool {
    exists|n: nat| open_in(n, row, v, s)
}

/// Whether a wanted effect of the one row is one of the other, and stays so whatever the rows are
/// extended with.
pub open spec fn flows(
    a: EffectRow,
    b: EffectRow,
    wanted: spec_fn(Ty) -> bool,
    s: State,
) -> bool {
    &&& row_has(a, wanted, s) ==> row_has(b, wanted, s)
    &&& forall|v: TypeVariableId| #[trigger] row_ends(a, v, s) ==> row_ends(b, v, s)
}

/// The row that a variable extends.
pub open spec fn only_open(v: TypeVariableId) -> EffectRow {
    (Seq::empty(), Some(v))
}

/// What is in a row is in it, or in what its extension is bound to.
pub proof fn lemma_unfold(row: EffectRow, wanted: spec_fn(Ty) -> bool, s: State)
    ensures
        row_has(row, wanted, s) <==> any_of(row.0, wanted) || (row.1 is Some && bound_row(
            row.1->0,
            s,
        ) is Some && row_has(bound_row(row.1->0, s)->0, wanted, s)),
        forall|v: TypeVariableId| #[trigger]
            row_ends(row, v, s) <==> row.1 is Some && match bound_row(row.1->0, s) {
                None => row.1->0 == v,
                Some(next) => row_ends(next, v, s),
            },
{
    if row_has(row, wanted, s) {
        let n = choose|n: nat| found(n, row, wanted, s);
        if !any_of(row.0, wanted) {
            assert(found((n - 1) as nat, bound_row(row.1->0, s)->0, wanted, s));
        }
    }
    if any_of(row.0, wanted) {
        assert(found(0, row, wanted, s));
    }
    if row.1 is Some && bound_row(row.1->0, s) is Some {
        let next = bound_row(row.1->0, s)->0;
        if row_has(next, wanted, s) {
            let n = choose|n: nat| found(n, next, wanted, s);
            assert(found(n + 1, row, wanted, s));
        }
    }
    assert forall|v: TypeVariableId| #[trigger]
        row_ends(row, v, s) <==> row.1 is Some && match bound_row(row.1->0, s) {
            None => row.1->0 == v,
            Some(next) => row_ends(next, v, s),
        } by {
        if row_ends(row, v, s) {
            let n = choose|n: nat| open_in(n, row, v, s);
            if let Some(next) = bound_row(row.1->0, s) {
                assert(open_in((n - 1) as nat, next, v, s));
            }
        }
        if row.1 is Some {
            match bound_row(row.1->0, s) {
                None => {
                    if row.1->0 == v {
                        assert(open_in(0, row, v, s));
                    }
                },
                Some(next) => {
                    if row_ends(next, v, s) {
                        let n = choose|n: nat| open_in(n, next, v, s);
                        assert(open_in(n + 1, row, v, s));
                    }
                },
            }
        }
    }
}

/// A row holds its effects, and what its extension stands for.
pub proof fn lemma_split(row: EffectRow, wanted: spec_fn(Ty) -> bool, s: State)
    ensures
        row_has(row, wanted, s) <==> any_of(row.0, wanted) || (row.1 is Some && row_has(
            only_open(row.1->0),
            wanted,
            s,
        )),
        forall|v: TypeVariableId| #[trigger]
            row_ends(row, v, s) <==> row.1 is Some && row_ends(only_open(row.1->0), v, s),
{
    lemma_unfold(row, wanted, s);
    if row.1 is Some {
        lemma_unfold(only_open(row.1->0), wanted, s);
    }
}

/// Where more is bound, what a row holds is what it held, and what its end stands for now.
proof fn lemma_found_later(
    n: nat,
    row: EffectRow,
    wanted: spec_fn(Ty) -> bool,
    s: State,
    r: State,
)
    requires
        grows(s, r),
        found(n, row, wanted, r),
    ensures
        row_has(row, wanted, s) || exists|v: TypeVariableId| #[trigger]
            row_ends(row, v, s) && row_has(only_open(v), wanted, r),
    decreases n,
{
    lemma_unfold(row, wanted, s);
    if !any_of(row.0, wanted) {
        let w = row.1->0;
        let next = bound_row(w, r)->0;
        match s.binding_of(w) {
            Some(Binding::Bound(t)) => {
                assert(r.binding_of(w) == s.binding_of(w));
                lemma_found_later((n - 1) as nat, next, wanted, s, r);
                if !row_has(next, wanted, s) {
                    let v = choose|v: TypeVariableId| #[trigger]
                        row_ends(next, v, s) && row_has(only_open(v), wanted, r);
                    assert(row_ends(row, v, s));
                }
            },
            _ => {
                assert(row_ends(row, w, s));
                lemma_unfold(only_open(w), wanted, r);
                assert(found((n - 1) as nat, next, wanted, r));
            },
        }
    }
}

proof fn lemma_open_later(n: nat, row: EffectRow, u: TypeVariableId, s: State, r: State)
    requires
        grows(s, r),
        open_in(n, row, u, r),
    ensures
        exists|v: TypeVariableId| #[trigger]
            row_ends(row, v, s) && row_ends(only_open(v), u, r),
    decreases n,
{
    let none = |t: Ty| false;
    lemma_unfold(row, none, s);
    let w = row.1->0;
    match bound_row(w, s) {
        Some(next) => {
            assert(r.binding_of(w) == s.binding_of(w));
            lemma_open_later((n - 1) as nat, next, u, s, r);
            let v = choose|v: TypeVariableId| #[trigger]
                row_ends(next, v, s) && row_ends(only_open(v), u, r);
            assert(row_ends(row, v, s));
        },
        None => {
            assert(row_ends(row, w, s));
            lemma_unfold(row, none, r);
            lemma_unfold(only_open(w), none, r);
            assert(row_ends(row, u, r));
            assert(row_ends(only_open(w), u, r));
        },
    }
}

proof fn lemma_found_still(
    n: nat,
    row: EffectRow,
    wanted: spec_fn(Ty) -> bool,
    s: State,
    r: State,
)
    requires
        grows(s, r),
        found(n, row, wanted, s),
    ensures
        row_has(row, wanted, r),
    decreases n,
{
    lemma_unfold(row, wanted, r);
    if !any_of(row.0, wanted) {
        let w = row.1->0;
        assert(r.binding_of(w) == s.binding_of(w));
        lemma_found_still((n - 1) as nat, bound_row(w, s)->0, wanted, s, r);
    }
}

proof fn lemma_open_still(
    n: nat,
    row: EffectRow,
    v: TypeVariableId,
    wanted: spec_fn(Ty) -> bool,
    s: State,
    r: State,
)
    requires
        grows(s, r),
        open_in(n, row, v, s),
    ensures
        row_has(only_open(v), wanted, r) ==> row_has(row, wanted, r),
        forall|u: TypeVariableId| #[trigger]
            row_ends(only_open(v), u, r) ==> row_ends(row, u, r),
    decreases n,
{
    lemma_unfold(row, wanted, r);
    lemma_split(row, wanted, r);
    let w = row.1->0;
    if let Some(next) = bound_row(w, s) {
        assert(r.binding_of(w) == s.binding_of(w));
        lemma_open_still((n - 1) as nat, next, v, wanted, s, r);
    }
}

/// What a row holds, where more is bound: what it held, and what its end stands for now.
pub proof fn lemma_later(row: EffectRow, wanted: spec_fn(Ty) -> bool, s: State, r: State)
    requires
        grows(s, r),
    ensures
        row_has(row, wanted, r) <==> row_has(row, wanted, s) || exists|v: TypeVariableId| #[trigger]
            row_ends(row, v, s) && row_has(only_open(v), wanted, r),
        forall|u: TypeVariableId| #[trigger]
            row_ends(row, u, r) <==> exists|v: TypeVariableId| #[trigger]
                row_ends(row, v, s) && row_ends(only_open(v), u, r),
{
    if row_has(row, wanted, r) {
        let n = choose|n: nat| found(n, row, wanted, r);
        lemma_found_later(n, row, wanted, s, r);
    }
    if row_has(row, wanted, s) {
        let n = choose|n: nat| found(n, row, wanted, s);
        lemma_found_still(n, row, wanted, s, r);
    }
    assert forall|v: TypeVariableId| #[trigger] row_ends(row, v, s) implies (row_has(
        only_open(v),
        wanted,
        r,
    ) ==> row_has(row, wanted, r)) && (forall|u: TypeVariableId| #[trigger]
        row_ends(only_open(v), u, r) ==> row_ends(row, u, r)) by {
        let n = choose|n: nat| open_in(n, row, v, s);
        lemma_open_still(n, row, v, wanted, s, r);
    }
    assert forall|u: TypeVariableId| #[trigger] row_ends(row, u, r) implies exists|
        v: TypeVariableId,
    | #[trigger] row_ends(row, v, s) && row_ends(only_open(v), u, r) by {
        let n = choose|n: nat| open_in(n, row, u, r);
        lemma_open_later(n, row, u, s, r);
    }
}

/// Effects that pass from one row to another still do when more is bound.
pub proof fn law_flow_stays(
    a: EffectRow,
    b: EffectRow,
    wanted: spec_fn(Ty) -> bool,
    s: State,
    r: State,
)
    requires
        flows(a, b, wanted, s),
        grows(s, r),
    ensures
        flows(a, b, wanted, r),
{
    lemma_later(a, wanted, s, r);
    lemma_later(b, wanted, s, r);
    if row_has(a, wanted, r) && !row_has(a, wanted, s) {
        let v = choose|v: TypeVariableId| #[trigger]
            row_ends(a, v, s) && row_has(only_open(v), wanted, r);
        assert(row_ends(b, v, s));
    }
    assert forall|u: TypeVariableId| #[trigger] row_ends(a, u, r) implies row_ends(b, u, r) by {
        let v = choose|v: TypeVariableId| #[trigger]
            row_ends(a, v, s) && row_ends(only_open(v), u, r);
        assert(row_ends(b, v, s));
    }
}

/// A row that is followed to its end holds exactly the effects found on the way.
pub proof fn lemma_flattened(
    n: nat,
    effects: Seq<Ty>,
    extension: Option<TypeVariableId>,
    wanted: spec_fn(Ty) -> bool,
    s: State,
)
    requires
        flatten(n, effects, extension, s.solution.types, s.cache.type_bindings) is Some,
    ensures
        ({
            let (xs, end) = flatten(
                n,
                effects,
                extension,
                s.solution.types,
                s.cache.type_bindings,
            )->0;
            &&& row_has((effects, extension), wanted, s) <==> any_of(xs, wanted)
            &&& forall|v: TypeVariableId| #[trigger]
                row_ends((effects, extension), v, s) <==> end == Some(v)
        }),
    decreases n,
{
    let row = (effects, extension);
    lemma_unfold(row, wanted, s);
    let d = (n - 1) as nat;
    if let Some(id) = extension {
        match s.binding_of(id) {
            Some(Binding::Bound(Ty::Variable(v))) => {
                lemma_flattened(d, effects, Some(v), wanted, s);
                lemma_split((effects, Some(v)), wanted, s);
                assert(bound_row(id, s) == Some(only_open(v)));
                assert forall|u: TypeVariableId| #[trigger]
                    row_ends(row, u, s) <==> row_ends((effects, Some(v)), u, s) by {
                    assert(row_ends(only_open(v), u, s) <==> row_ends((effects, Some(v)), u, s));
                }
            },
            Some(Binding::Bound(Ty::NamedGeneric(v, _))) => {
                lemma_flattened(d, effects, Some(v), wanted, s);
                lemma_split((effects, Some(v)), wanted, s);
                assert(bound_row(id, s) == Some(only_open(v)));
                assert forall|u: TypeVariableId| #[trigger]
                    row_ends(row, u, s) <==> row_ends((effects, Some(v)), u, s) by {
                    assert(row_ends(only_open(v), u, s) <==> row_ends((effects, Some(v)), u, s));
                }
            },
            Some(Binding::Bound(Ty::Effects(more, end))) => {
                lemma_flattened(d, effects + more, end, wanted, s);
                lemma_split((effects + more, end), wanted, s);
                lemma_split((more, end), wanted, s);
                lemma_any_joined(effects, more, wanted);
                assert(bound_row(id, s) == Some((more, end)));
                let (xs, last) = flatten(
                    d,
                    effects + more,
                    end,
                    s.solution.types,
                    s.cache.type_bindings,
                )->0;
                assert forall|v: TypeVariableId| #[trigger]
                    row_ends(row, v, s) <==> last == Some(v) by {
                    assert(row_ends((more, end), v, s) <==> row_ends((effects + more, end), v, s));
                }
            },
            _ => {},
        }
    }
}

/// The effects of two lists are those of either.
pub proof fn lemma_any_joined(a: Seq<Ty>, b: Seq<Ty>, wanted: spec_fn(Ty) -> bool)
    ensures
        any_of(a + b, wanted) <==> any_of(a, wanted) || any_of(b, wanted),
{
    if any_of(a + b, wanted) {
        let i = choose|i: int| 0 <= i < (a + b).len() && wanted(#[trigger] (a + b)[i]);
        if i < a.len() {
            assert(wanted(a[i]));
        } else {
            assert(wanted(b[i - a.len()]));
        }
    }
    if any_of(a, wanted) {
        let i = choose|i: int| 0 <= i < a.len() && wanted(#[trigger] a[i]);
        assert(wanted((a + b)[i]));
    }
    if any_of(b, wanted) {
        let i = choose|i: int| 0 <= i < b.len() && wanted(#[trigger] b[i]);
        assert(wanted((a + b)[a.len() + i]));
    }
}

/// Whether the rows hold the same wanted effects, and go on to.
pub open spec fn alike(
    a: EffectRow,
    b: EffectRow,
    wanted: spec_fn(Ty) -> bool,
    s: State,
) -> bool {
    flows(a, b, wanted, s) && flows(b, a, wanted, s)
}

/// Rows that are alike still are when more is bound.
pub proof fn law_alike_stays(
    a: EffectRow,
    b: EffectRow,
    wanted: spec_fn(Ty) -> bool,
    s: State,
    r: State,
)
    requires
        alike(a, b, wanted, s),
        grows(s, r),
    ensures
        alike(a, b, wanted, r),
{
    law_flow_stays(a, b, wanted, s, r);
    law_flow_stays(b, a, wanted, s, r);
}

pub proof fn lemma_missing(effects: Seq<Ty>, others: Seq<Ty>, wanted: spec_fn(Ty) -> bool)
    ensures
        any_of(missing_from(effects, others), wanted) ==> any_of(effects, wanted),
        any_of(effects, wanted) ==> any_of(others, wanted) || any_of(
            missing_from(effects, others),
            wanted,
        ),
{
    let only = missing_from(effects, others);
    if any_of(only, wanted) {
        let i = choose|i: int| 0 <= i < only.len() && wanted(#[trigger] only[i]);
        law_missing_from(effects, others, only[i]);
        let j = choose|j: int| 0 <= j < effects.len() && effects[j] == only[i];
        assert(wanted(effects[j]));
    }
    if any_of(effects, wanted) {
        let i = choose|i: int| 0 <= i < effects.len() && wanted(#[trigger] effects[i]);
        law_missing_from(effects, others, effects[i]);
        if others.contains(effects[i]) {
            let j = choose|j: int| 0 <= j < others.len() && others[j] == effects[i];
            assert(wanted(others[j]));
        } else {
            assert(effects.contains(effects[i]));
            let j = choose|j: int| 0 <= j < only.len() && only[j] == effects[i];
            assert(wanted(only[j]));
        }
    }
}

/// Two rows joined hold the effects of both, whatever these turn out to be later, and no others.
/// Where both are open, each of them holds the effects of the other from there on.
pub proof fn law_joined_rows_flow(
    a: EffectRow,
    b: EffectRow,
    wanted: spec_fn(Ty) -> bool,
    c: Cache,
)
    requires
        combined(a, b, c) matches Some((_, c1)) && c1.type_bindings.len() <= usize::MAX,
    ensures
        ({
            let (row, c1) = combined(a, b, c)->0;
            &&& flows(a, row, wanted, committed(c1))
            &&& flows(b, row, wanted, committed(c1))
            &&& row_has(row, wanted, committed(c1)) ==> row_has(a, wanted, committed(c))
                || row_has(b, wanted, committed(c))
            &&& (exists|x: TypeVariableId, y: TypeVariableId|
                x != y && #[trigger] row_ends(a, x, committed(c)) && #[trigger] row_ends(
                    b,
                    y,
                    committed(c),
                )) ==> flows(row, a, wanted, committed(c1)) && flows(
                row,
                b,
                wanted,
                committed(c1),
            )
        }),
{
    let (row, c1) = combined(a, b, c)->0;
    let s = committed(c);
    let r = committed(c1);
    law_combining_goes_on(a, b, c);
    lemma_stay_grow(c, c1);
    lemma_flat_end(a, c);
    lemma_flat_end(b, c);
    let (xs, end1) = flat(a, c)->0;
    let (ys, end2) = flat(b, c)->0;
    let only1 = missing_from(xs, ys);
    let only2 = missing_from(ys, xs);
    lemma_flattened(MAX_DEPTH as nat, a.0, a.1, wanted, s);
    lemma_flattened(MAX_DEPTH as nat, b.0, b.1, wanted, s);
    assert(a == (a.0, a.1) && b == (b.0, b.1));
    lemma_later(a, wanted, s, r);
    lemma_later(b, wanted, s, r);
    lemma_missing(xs, ys, wanted);
    lemma_missing(ys, xs, wanted);
    lemma_any_joined(xs, only2, wanted);
    lemma_split(row, wanted, r);
    if let Some(x) = end1 {
        lemma_unfold(only_open(x), wanted, r);
    }
    if let Some(y) = end2 {
        lemma_unfold(only_open(y), wanted, r);
    }
    if let (Some(x), Some(y)) = (end1, end2) {
        if x != y {
            let z = c.next_id();
            assert(bound_row(x, r) == Some((only2, Some(z))));
            assert(bound_row(y, r) == Some((only1, Some(z))));
            lemma_split((only2, Some(z)), wanted, r);
            lemma_split((only1, Some(z)), wanted, r);
            assert(bound_row(z, r) is None);
            lemma_unfold(only_open(z), wanted, r);
        }
    }
    assert forall|u: TypeVariableId| #[trigger] row_ends(a, u, r) implies row_ends(row, u, r) by {
        let v = choose|v: TypeVariableId| #[trigger]
            row_ends(a, v, s) && row_ends(only_open(v), u, r);
    }
    assert forall|u: TypeVariableId| #[trigger] row_ends(b, u, r) implies row_ends(row, u, r) by {
        let v = choose|v: TypeVariableId| #[trigger]
            row_ends(b, v, s) && row_ends(only_open(v), u, r);
    }
    if exists|x: TypeVariableId, y: TypeVariableId|
        x != y && #[trigger] row_ends(a, x, s) && #[trigger] row_ends(b, y, s) {
        let (x, y) = (end1->0, end2->0);
        assert(row_ends(a, x, s) && row_ends(b, y, s));
        assert forall|u: TypeVariableId| #[trigger] row_ends(row, u, r) implies row_ends(a, u, r)
            && row_ends(b, u, r) by {
            assert(row_ends(only_open(x), u, r) && row_ends(only_open(y), u, r));
        }
    }
}

/// An effect with an id is found exactly if there is one.
proof fn lemma_found_by_id(effects: Seq<Ty>, id: EffectInfoId)
    ensures
        find_effect(effects, id) is Some <==> any_of(effects, has_id(id)),
{
    lemma_find_effect(effects, id);
    if let Some(i) = find_effect(effects, id) {
        assert(has_id(id)(effects[i]));
    }
    if any_of(effects, has_id(id)) {
        let i = choose|i: int| 0 <= i < effects.len() && has_id(id)(#[trigger] effects[i]);
        assert(effect_id(effects[i]) == id);
    }
}

/// The effects whose id others lack are those whose id others lack.
proof fn lemma_lacking(effects: Seq<Ty>, others: Seq<Ty>, id: EffectInfoId)
    ensures
        any_of(effects_without(effects, others), has_id(id)) <==> any_of(effects, has_id(id))
            && !any_of(others, has_id(id)),
    decreases effects.len(),
{
    if effects.len() > 0 {
        let front = effects.drop_last();
        let last = effects.last();
        lemma_lacking(front, others, id);
        lemma_found_by_id(others, effect_id(last));
        lemma_any_joined(front, seq![last], has_id(id));
        lemma_any_joined(effects_without(front, others), seq![last], has_id(id));
        assert(effects =~= front + seq![last]);
        assert(effects_without(front, others).push(last) =~= effects_without(front, others) + seq![
            last,
        ]);
        assert(any_of(seq![last], has_id(id)) <==> effect_id(last) == id) by {
            if effect_id(last) == id {
                assert(has_id(id)(seq![last][0]));
            }
        }
    }
}

/// What a chain of bindings ends at is alike to where it starts.
proof fn lemma_follow_alike(depth: nat, t: Ty, wanted: spec_fn(Ty) -> bool, s: State, r: State)
    requires
        grows(s, r),
        follow(depth, t, s.solution.types, s.cache.type_bindings) is Some,
    ensures
        alike(
            type_row(t),
            type_row(follow(depth, t, s.solution.types, s.cache.type_bindings)->0),
            wanted,
            r,
        ),
    decreases depth,
{
    if let Ty::Variable(v) = t {
        if let Some(Binding::Bound(b)) = s.binding_of(v) {
            assert(r.binding_of(v) == s.binding_of(v));
            lemma_follow_alike((depth - 1) as nat, b, wanted, s, r);
            lemma_unfold(only_open(v), wanted, r);
        }
    }
}

/// A variable is alike to what it is bound to.
proof fn lemma_bound_alike(v: TypeVariableId, row: EffectRow, wanted: spec_fn(Ty) -> bool, s: State)
    requires
        bound_row(v, s) == Some(row),
    ensures
        alike(only_open(v), row, wanted, s),
{
    lemma_unfold(only_open(v), wanted, s);
}

/// Types without rows of fields that unify are alike as rows: they hold effects of the same ids.
pub proof fn lemma_unified_alike(
    k: Set<usize>,
    depth: nat,
    a: Ty,
    b: Ty,
    id: EffectInfoId,
    s: State,
)
    requires
        clean(a, k),
        clean(b, k),
        quiet(k, s),
        succeeded(unify_types(depth, a, b, s)),
        small(unify_types(depth, a, b, s)->0.state),
    ensures
        alike(type_row(a), type_row(b), has_id(id), unify_types(depth, a, b, s)->0.state),
    decreases depth, 0nat,
{
    let d = (depth - 1) as nat;
    let r = unify_types(depth, a, b, s)->0.state;
    lemma_unify_regular(k, depth, a, b, s);
    law_unify_sound(false, depth, a, b, s);
    match (a, b) {
        (Ty::Variable(v), _) => lemma_variable_alike(k, d, v, b, true, id, s),
        (_, Ty::Variable(v)) => lemma_variable_alike(k, d, v, a, false, id, s),
        (Ty::NamedGeneric(v, _), _) => {
            match s.binding_of(v) {
                Some(Binding::Bound(t)) => {
                    assert(r.binding_of(v) == s.binding_of(v));
                    lemma_unified_alike(k, d, t, b, id, s);
                    lemma_bound_alike(v, type_row(t), has_id(id), r);
                },
                _ => {
                    if let Ty::NamedGeneric(w, _) = b {
                                    match s.binding_of(w) {
                            Some(Binding::Bound(t)) => {
                                assert(r.binding_of(w) == s.binding_of(w));
                                lemma_unified_alike(k, d, a, t, id, s);
                                lemma_bound_alike(w, type_row(t), has_id(id), r);
                            },
                            _ => {
                                if v != w {
                                    assert(bound_row(v, r) == Some(only_open(w)));
                                    lemma_bound_alike(v, only_open(w), has_id(id), r);
                                }
                            },
                        }
                    }
                },
            }
        },
        (_, Ty::NamedGeneric(w, _)) => {
            if let Some(Binding::Bound(t)) = s.binding_of(w) {
                assert(r.binding_of(w) == s.binding_of(w));
                lemma_unified_alike(k, d, a, t, id, s);
                lemma_bound_alike(w, type_row(t), has_id(id), r);
            }
        },
        (Ty::Effects(effects1, extension1), Ty::Effects(effects2, extension2)) => {
            lemma_effects_alike(k, d, effects1, extension1, effects2, extension2, id, s);
        },
        _ => {},
    }
}

proof fn lemma_variable_alike(
    k: Set<usize>,
    depth: nat,
    v: TypeVariableId,
    b: Ty,
    on_lhs: bool,
    id: EffectInfoId,
    s: State,
)
    requires
        clean(b, k),
        k.contains(v.0),
        quiet(k, s),
        succeeded(unify_variable(depth, v, Ty::Variable(v), b, on_lhs, s)),
        small(unify_variable(depth, v, Ty::Variable(v), b, on_lhs, s)->0.state),
        !on_lhs ==> !(b is Variable),
    ensures
        alike(
            only_open(v),
            type_row(b),
            has_id(id),
            unify_variable(depth, v, Ty::Variable(v), b, on_lhs, s)->0.state,
        ),
    decreases depth, 1nat,
{
    let a = Ty::Variable(v);
    let step = unify_variable(depth, v, a, b, on_lhs, s);
    let r = step->0.state;
    if on_lhs {
        assert(unify_types(depth + 1, a, b, s) == step);
        lemma_unify_regular(k, depth + 1, a, b, s);
        law_unify_sound(false, depth + 1, a, b, s);
    } else {
        assert(unify_types(depth + 1, b, a, s) == step);
        lemma_unify_regular(k, depth + 1, b, a, s);
        law_unify_sound(false, depth + 1, b, a, s);
    }
    match s.binding_of(v) {
        Some(Binding::Bound(t)) => {
            assert(r.binding_of(v) == s.binding_of(v));
            if on_lhs {
                lemma_unified_alike(k, depth, t, b, id, s);
            } else {
                lemma_unified_alike(k, depth, b, t, id, s);
            }
            lemma_bound_alike(v, type_row(t), has_id(id), r);
        },
        _ => {
            lemma_follow_alike(MAX_DEPTH as nat, b, has_id(id), s, r);
            let end = follow(MAX_DEPTH as nat, b, s.solution.types, s.cache.type_bindings)->0;
            if end != a {
                assert(bound_row(v, r) == Some(type_row(end)));
                lemma_bound_alike(v, type_row(end), has_id(id), r);
            }
        },
    }
}

/// Rows that extend alike lists by alike rows are alike.
proof fn lemma_rows_alike(
    xs: Seq<Ty>,
    end1: Option<TypeVariableId>,
    tail1: EffectRow,
    ys: Seq<Ty>,
    end2: Option<TypeVariableId>,
    tail2: EffectRow,
    id: EffectInfoId,
    r: State,
)
    requires
        alike((Seq::empty(), end1), tail1, has_id(id), r),
        alike((Seq::empty(), end2), tail2, has_id(id), r),
        any_of(xs, has_id(id)) || any_of(tail1.0, has_id(id)) <==> any_of(ys, has_id(id)) || any_of(
            tail2.0,
            has_id(id),
        ),
        tail1.1 == tail2.1,
    ensures
        alike((xs, end1), (ys, end2), has_id(id), r),
{
    let wanted = has_id(id);
    lemma_split((xs, end1), wanted, r);
    lemma_split((ys, end2), wanted, r);
    lemma_split((Seq::empty(), end1), wanted, r);
    lemma_split((Seq::empty(), end2), wanted, r);
    lemma_split(tail1, wanted, r);
    lemma_split(tail2, wanted, r);
    assert(!any_of(Seq::<Ty>::empty(), wanted));
    assert forall|u: TypeVariableId| #[trigger] row_ends((xs, end1), u, r) <==> row_ends(
        (ys, end2),
        u,
        r,
    ) by {
        assert(row_ends((Seq::<Ty>::empty(), end1), u, r) <==> row_ends(tail1, u, r));
        assert(row_ends((Seq::<Ty>::empty(), end2), u, r) <==> row_ends(tail2, u, r));
    }
}

/// Unifying rows of effects does not lose variables made for their arguments.
proof fn lemma_effects_after_common(
    depth: nat,
    effects1: Seq<Ty>,
    extension1: Option<TypeVariableId>,
    effects2: Seq<Ty>,
    extension2: Option<TypeVariableId>,
    s: State,
)
    requires
        s.solution.known_to(s.cache),
        succeeded(unify_effects(depth, effects1, extension1, effects2, extension2, s)),
    ensures
        ({
            let types = s.solution.types;
            let vars = s.cache.type_bindings;
            let (xs, _) = flatten(MAX_DEPTH as nat, effects1, extension1, types, vars)->0;
            let (ys, _) = flatten(MAX_DEPTH as nat, effects2, extension2, types, vars)->0;
            let r = unify_effects(depth, effects1, extension1, effects2, extension2, s)->0.state;
            let s1 = unify_common(depth, xs, ys, s)->0.state;
            s1.cache.type_bindings.len() <= r.cache.type_bindings.len()
        }),
{
    let types = s.solution.types;
    let vars = s.cache.type_bindings;
    let (xs, end1) = flatten(MAX_DEPTH as nat, effects1, extension1, types, vars)->0;
    let (ys, end2) = flatten(MAX_DEPTH as nat, effects2, extension2, types, vars)->0;
    lemma_unify_common_keeps(depth, xs, ys, s);
    let s1 = unify_common(depth, xs, ys, s)->0.state;
    let only1 = effects_without(xs, ys);
    let only2 = effects_without(ys, xs);
    match (end1, end2) {
        (None, None) => {},
        (Some(x), None) => {
            let t = Ty::Effects(only2, None);
            lemma_unify_variable_keeps(depth, x, Ty::Variable(x), t, true, s1);
        },
        (None, Some(y)) => {
            let t = Ty::Effects(only1, None);
            lemma_unify_variable_keeps(depth, y, Ty::Variable(y), t, true, s1);
        },
        (Some(x), Some(y)) => {
            lemma_unify_variable_keeps(depth, x, Ty::Variable(x), Ty::Variable(y), true, s1);
            if let Some(c) = fresh_row(s1.cache, x, y) {
                let z = s1.cache.next_id();
                let s2 = State { solution: s1.solution, cache: c };
                lemma_keeps_fresh(s1, x, y);
                let t1 = Ty::Effects(only2, Some(z));
                let t2 = Ty::Effects(only1, Some(z));
                lemma_unify_variable_keeps(depth, x, Ty::Variable(x), t1, true, s2);
                let second = unify_variable(depth, x, Ty::Variable(x), t1, true, s2);
                if succeeded(second) {
                    let s3 = second->0.state;
                    lemma_unify_variable_keeps(depth, y, Ty::Variable(y), t2, true, s3);
                }
            }
        },
    }
}

proof fn lemma_effects_alike(
    k: Set<usize>,
    depth: nat,
    effects1: Seq<Ty>,
    extension1: Option<TypeVariableId>,
    effects2: Seq<Ty>,
    extension2: Option<TypeVariableId>,
    id: EffectInfoId,
    s: State,
)
    requires
        all_clean(effects1, k),
        extension1 matches Some(v) ==> k.contains(v.0),
        all_clean(effects2, k),
        extension2 matches Some(v) ==> k.contains(v.0),
        quiet(k, s),
        succeeded(unify_effects(depth, effects1, extension1, effects2, extension2, s)),
        small(unify_effects(depth, effects1, extension1, effects2, extension2, s)->0.state),
    ensures
        alike(
            (effects1, extension1),
            (effects2, extension2),
            has_id(id),
            unify_effects(depth, effects1, extension1, effects2, extension2, s)->0.state,
        ),
    decreases depth, 3nat,
{
    let wanted = has_id(id);
    let types = s.solution.types;
    let vars = s.cache.type_bindings;
    let r = unify_effects(depth, effects1, extension1, effects2, extension2, s)->0.state;
    let (xs, end1) = flatten(MAX_DEPTH as nat, effects1, extension1, types, vars)->0;
    let (ys, end2) = flatten(MAX_DEPTH as nat, effects2, extension2, types, vars)->0;
    lemma_effects_regular(k, depth, effects1, extension1, effects2, extension2, s);
    lemma_effects_grow(false, depth, effects1, extension1, effects2, extension2, s);
    lemma_flatten_clean(k, MAX_DEPTH as nat, effects1, extension1, s);
    lemma_flatten_clean(k, MAX_DEPTH as nat, effects2, extension2, s);
    let s1 = unify_common(depth, xs, ys, s)->0.state;
    lemma_unify_common_keeps(depth, xs, ys, s);
    lemma_effects_after_common(depth, effects1, extension1, effects2, extension2, s);
    lemma_common_regular(k, depth, xs, ys, s);
    let only1 = effects_without(xs, ys);
    let only2 = effects_without(ys, xs);
    lemma_without_clean(k, xs, ys);
    lemma_without_clean(k, ys, xs);
    lemma_lacking(xs, ys, id);
    lemma_lacking(ys, xs, id);
    let none: EffectRow = (Seq::empty(), None);
    assert(!any_of(Seq::<Ty>::empty(), wanted));
    match (end1, end2) {
        (None, None) => {
            assert(only1 =~= Seq::empty() && only2 =~= Seq::empty());
            lemma_rows_alike(xs, end1, none, ys, end2, none, id, r);
        },
        (Some(x), None) => {
            assert(only1 =~= Seq::empty());
            lemma_variable_alike(k, depth, x, Ty::Effects(only2, None), true, id, s1);
            lemma_rows_alike(xs, end1, (only2, None), ys, end2, none, id, r);
        },
        (None, Some(y)) => {
            assert(only2 =~= Seq::empty());
            lemma_variable_alike(k, depth, y, Ty::Effects(only1, None), true, id, s1);
            lemma_rows_alike(xs, end1, none, ys, end2, (only1, None), id, r);
        },
        (Some(x), Some(y)) => {
            if only1.len() == 0 && only2.len() == 0 {
                assert(only1 =~= Seq::empty() && only2 =~= Seq::empty());
                lemma_variable_alike(k, depth, x, Ty::Variable(y), true, id, s1);
                lemma_rows_alike(xs, end1, only_open(y), ys, end2, only_open(y), id, r);
            } else {
                let c = fresh_row(s1.cache, x, y)->0;
                let z = s1.cache.next_id();
                let s2 = State { solution: s1.solution, cache: c };
                lemma_keeps_fresh(s1, x, y);
                let t1 = Ty::Effects(only2, Some(z));
                let t2 = Ty::Effects(only1, Some(z));
                lemma_unify_variable_keeps(depth, x, Ty::Variable(x), t1, true, s2);
                let s3 = unify_variable(depth, x, Ty::Variable(x), t1, true, s2)->0.state;
                lemma_unify_variable_keeps(depth, y, Ty::Variable(y), t2, true, s3);
                lemma_fresh_quiet(k, s1, x, y);
                lemma_variable_alike(k, depth, x, t1, true, id, s2);
                lemma_variable_regular(k, depth, x, Ty::Variable(x), t1, true, s2);
                lemma_variable_alike(k, depth, y, t2, true, id, s3);
                assert(unify_types(depth + 1, Ty::Variable(y), t2, s3) == unify_variable(
                    depth,
                    y,
                    Ty::Variable(y),
                    t2,
                    true,
                    s3,
                ));
                lemma_unify_regular(k, depth + 1, Ty::Variable(y), t2, s3);
                law_unify_sound(false, depth + 1, Ty::Variable(y), t2, s3);
                law_alike_stays(only_open(x), (only2, Some(z)), wanted, s3, r);
                lemma_rows_alike(xs, end1, (only2, Some(z)), ys, end2, (only1, Some(z)), id, r);
            }
        },
    }
    lemma_flattened(MAX_DEPTH as nat, effects1, extension1, wanted, s);
    lemma_flattened(MAX_DEPTH as nat, effects2, extension2, wanted, s);
    lemma_further_alike((effects1, extension1), (xs, end1), wanted, s, r);
    lemma_further_alike((effects2, extension2), (ys, end2), wanted, s, r);
}

/// A row and what it comes to are alike, also when more is bound.
proof fn lemma_further_alike(
    row: EffectRow,
    followed: EffectRow,
    wanted: spec_fn(Ty) -> bool,
    s: State,
    r: State,
)
    requires
        grows(s, r),
        row_has(row, wanted, s) <==> any_of(followed.0, wanted),
        forall|v: TypeVariableId| #[trigger] row_ends(row, v, s) <==> followed.1 == Some(v),
    ensures
        alike(row, followed, wanted, r),
{
    lemma_later(row, wanted, s, r);
    lemma_split(followed, wanted, r);
    if let Some(v) = followed.1 {
        assert(row_ends(row, v, s));
    }
    assert forall|u: TypeVariableId| #[trigger] row_ends(row, u, r) implies row_ends(
        followed,
        u,
        r,
    ) by {
        let v = choose|v: TypeVariableId| #[trigger]
            row_ends(row, v, s) && row_ends(only_open(v), u, r);
    }
}

proof fn lemma_commit_found(n: nat, row: EffectRow, wanted: spec_fn(Ty) -> bool, s: State)
    requires
        is_proper(s),
        s.solution.known_to(s.cache),
        s.cache.type_bindings.len() <= usize::MAX,
    ensures
        found(n, row, wanted, committed(s.cache.perform(s.solution))) == found(n, row, wanted, s),
        forall|v: TypeVariableId| #[trigger]
            open_in(n, row, v, committed(s.cache.perform(s.solution))) == open_in(n, row, v, s),
    decreases n,
{
    if let Some(w) = row.1 {
        lemma_commit_hops(s, Ty::Variable(w));
        let r = committed(s.cache.perform(s.solution));
        assert(bound_row(w, r) == bound_row(w, s)) by {
            assert(hop(Ty::Variable(w), r) == hop(Ty::Variable(w), s));
        }
        if n > 0 {
            if let Some(next) = bound_row(w, s) {
                lemma_commit_found((n - 1) as nat, next, wanted, s);
                assert forall|v: TypeVariableId| #[trigger]
                    open_in(n, row, v, r) == open_in(n, row, v, s) by {
                    assert(open_in((n - 1) as nat, next, v, r) == open_in(
                        (n - 1) as nat,
                        next,
                        v,
                        s,
                    ));
                }
            }
        }
    }
}

pub proof fn lemma_commit_row(row: EffectRow, wanted: spec_fn(Ty) -> bool, s: State)
    requires
        is_proper(s),
        s.solution.known_to(s.cache),
        s.cache.type_bindings.len() <= usize::MAX,
    ensures
        row_has(row, wanted, committed(s.cache.perform(s.solution))) == row_has(row, wanted, s),
        forall|v: TypeVariableId| #[trigger]
            row_ends(row, v, committed(s.cache.perform(s.solution))) == row_ends(row, v, s),
{
    let r = committed(s.cache.perform(s.solution));
    assert forall|n: nat| found(n, row, wanted, r) == found(n, row, wanted, s) by {
        lemma_commit_found(n, row, wanted, s);
    }
    if row_has(row, wanted, r) {
        let n = choose|n: nat| found(n, row, wanted, r);
        assert(found(n, row, wanted, s));
    }
    if row_has(row, wanted, s) {
        let n = choose|n: nat| found(n, row, wanted, s);
        assert(found(n, row, wanted, r));
    }
    assert forall|v: TypeVariableId| #[trigger] row_ends(row, v, r) == row_ends(row, v, s) by {
        if row_ends(row, v, r) {
            let n = choose|n: nat| open_in(n, row, v, r);
            lemma_commit_found(n, row, wanted, s);
            assert(open_in(n, row, v, s));
        }
        if row_ends(row, v, s) {
            let n = choose|n: nat| open_in(n, row, v, s);
            lemma_commit_found(n, row, wanted, s);
            assert(open_in(n, row, v, r));
        }
    }
}

/// Types that unify hold, as rows, effects of the same ids in every later cache in which the
/// solution is kept, if they are clean in a quiet set.
pub proof fn lemma_solved_rows_alike(
    k: Set<usize>,
    a: Ty,
    b: Ty,
    id: EffectInfoId,
    c: Cache,
    done: Cache,
    end: Cache,
)
    requires
        quiet(k, committed(c)),
        clean(a, k),
        clean(b, k),
        succeeded(fresh_unification(a, b, c)),
        ({
            let s = fresh_unification(a, b, c)->0.state;
            done.type_bindings == s.cache.perform(s.solution).type_bindings
        }),
        gains(done, end),
        end.type_bindings.len() <= usize::MAX,
    ensures
        alike(type_row(a), type_row(b), has_id(id), committed(end)),
{
    let s0 = committed(c);
    let s = fresh_unification(a, b, c)->0.state;
    let solved = s.cache.perform(s.solution);
    law_unify_keeps(MAX_DEPTH as nat, a, b, s0);
    assert(is_proper(s0));
    lemma_perform_length(s);
    lemma_unified_alike(k, MAX_DEPTH as nat, a, b, id, s0);
    lemma_commit_row(type_row(a), has_id(id), s);
    lemma_commit_row(type_row(b), has_id(id), s);
    assert(alike(type_row(a), type_row(b), has_id(id), committed(solved)));
    lemma_stay_grow(solved, end);
    law_alike_stays(type_row(a), type_row(b), has_id(id), committed(solved), committed(end));
}

/// Types that unify hold, as rows, effects of the same ids in every later cache in which the
/// solution is kept, where no row of fields is involved.
pub proof fn law_solved_rows_alike(
    a: Ty,
    b: Ty,
    id: EffectInfoId,
    c: Cache,
    done: Cache,
    end: Cache,
)
    requires
        succeeded(fresh_unification(a, b, c)),
        ({
            let s = fresh_unification(a, b, c)->0.state;
            done.type_bindings == s.cache.perform(s.solution).type_bindings
        }),
        gains(done, end),
        end.type_bindings.len() <= usize::MAX,
        fieldless(a, end),
        fieldless(b, end),
    ensures
        alike(type_row(a), type_row(b), has_id(id), committed(end)),
{
    let s0 = committed(c);
    let s = fresh_unification(a, b, c)->0.state;
    law_unify_keeps(MAX_DEPTH as nat, a, b, s0);
    law_unification_goes_on(a, b, c);
    lemma_perform_length(s);
    lemma_stay_further(c.type_bindings, done.type_bindings, end.type_bindings);
    let k = lemma_both_clean(a, b, c, end);
    lemma_solved_rows_alike(k, a, b, id, c, done, end);
}

} // verus!
