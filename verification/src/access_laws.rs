//! What assignments and references are for: only what is mutable is mutated, and what is assigned
//! has the type of where it is assigned to.

use crate::access::{assigned, lemma_references_stay, place_inside, references_inferred, Assignment};
use crate::accord::{
    accord, begin_alike, clean, fieldless, head, is_island, law_solved_types_accord,
    law_unified_types_accord, lemma_clean_in_larger, lemma_head_further, lemma_head_is_one,
    lemma_island_is_quiet, lemma_islands_join, lemma_keeps_grow, lemma_solved_agree,
    lemma_stay_grow, lemma_unified_heads, stands_for,
};
use crate::agreement::{agree, agrees, committed, grows};
use crate::cache::{lookup, Binding, Cache, Location, Reason, Report};
use crate::expressions::Reference;
use crate::inference_laws::{
    lemma_assigned, lemma_mutable_ref, lemma_place, lemma_reference_typed, lemma_references,
    lemma_results, only_goes_on,
};
use crate::instantiate::Mutability;
use crate::progress::{
    gains, goes_on, law_goes_on_further, law_unification_goes_on, law_unify_goes_on,
    lemma_fresh_goes_on, lemma_perform_goes_on,
};
use crate::resolve::{follow, MAX_DEPTH};
use crate::results::{combined_results, unit_ty};
use crate::rule_laws::{
    carries, is_part, lemma_carries_itself, lemma_carries_still, lemma_joined_carries, lemma_noted,
    lemma_only_part, lemma_part_still, noted, reports_nothing,
};
use crate::rules::{assignment_reported, at_one, follow_in, mutable_ref, place_checked, Place};
use crate::solve::fresh_unification;
use crate::tree::{inferred, Expression, Inferable, Referred, Tree};
use crate::types::{Ty, TypeTag, TypeVariableId};
use crate::unify::State;
use crate::unify_laws::{is_proper, law_unify_keeps};
use vstd::prelude::*;

verus! {

/// Whether something was reported at the place, from the one cache to the other.
pub open spec fn is_reported(
    location: Location,
    report: Report,
    before: Cache,
    after: Cache,
) -> bool {
    exists|i: int|
        before.diagnostics.len() <= i < after.diagnostics.len() && (
        #[trigger] after.diagnostics[i]).location == location && after.diagnostics[i].report
            == report
}

/// Whether the place may be mutated, or it was reported that it may not: a variable has to be
/// mutable, and a temporary value may not be mutated, unless that is allowed. A field was checked
/// where it was accessed.
pub open spec fn is_mutable_or_reported(
    place: Place,
    allow_temporary: bool,
    before: Cache,
    after: Cache,
) -> bool {
    match place {
        Place::Variable(None, _) => true,
        Place::Variable(Some(id), location) => {
            &&& id.0 < after.definition_infos.len()
            &&& after.definition_infos[id.0 as int].mutable || is_reported(
                location,
                Report::MutRefToImmutableVariable(after.definition_infos[id.0 as int].name),
                before,
                after,
            )
        },
        Place::MemberAccess => true,
        Place::Temporary(location) => allow_temporary || is_reported(
            location,
            Report::MutRefToTemporary,
            before,
            after,
        ),
    }
}

/// What is checked, with what was found out before and after it.
pub proof fn lemma_checked(
    place: Place,
    allow_temporary: bool,
    before: Cache,
    c: Cache,
    c1: Cache,
    end: Cache,
)
    requires
        place_checked(place, allow_temporary, c) == Some(c1),
        before.diagnostics.len() <= c.diagnostics.len(),
        gains(c1, end),
        end.definition_infos == c1.definition_infos,
    ensures
        is_mutable_or_reported(place, allow_temporary, before, end),
{
    let n = c.diagnostics.len() as int;
    if c1.diagnostics.len() > n {
        assert(end.diagnostics[n] == c1.diagnostics[n]);
    }
}

/// The type of what is assigned to: that of the left-hand side, or of the last reference to it.
pub open spec fn assigned_type(lhs: Tree, references: Seq<Referred>, n: nat) -> Ty {
    if n == 0 {
        noted(lhs)
    } else {
        references[n - 1].typ->0
    }
}

/// Whether the type stands for something applied to one argument, which agrees with the value where
/// no row of fields is involved.
pub open spec fn refers_to(reference: Ty, value: Ty, c: Cache) -> bool {
    forall|i: nat|
        (#[trigger] head(i, reference, committed(c))) matches Some(g) ==> g is Struct || (
        g is Application && g->Application_1.len() == 1 && (fieldless(reference, c) && fieldless(
            value,
            c,
        ) ==> agree(false, g->Application_1[0], value, committed(c))))
}

proof fn lemma_assigned_directly(
    lhs: Ty,
    place: Place,
    lhs_location: Location,
    rhs: Ty,
    location: Location,
    before: Cache,
    c: Cache,
)
    requires
        assigned(lhs, place, lhs_location, rhs, location, c) matches Some((Some(_), end))
            && end.type_bindings.len() <= usize::MAX,
        goes_on(before, c),
    ensures
        ({
            let (_, end) = assigned(lhs, place, lhs_location, rhs, location, c)->0;
            accord(lhs, rhs, end) && is_mutable_or_reported(place, false, before, end)
        }),
{
    let (_, end) = assigned(lhs, place, lhs_location, rhs, location, c)->0;
    law_unification_goes_on(lhs, rhs, c);
    let step = fresh_unification(lhs, rhs, c)->0;
    let tried = step.state.cache;
    law_unify_keeps(MAX_DEPTH as nat, lhs, rhs, committed(c));
    let c1 = place_checked(place, false, tried)->0;
    lemma_place(place, false, tried);
    let done = c1.perform(step.state.solution);
    let s = State { solution: step.state.solution, cache: c1 };
    assert(is_proper(s)) by {
        assert forall|k: usize| #[trigger] s.solution.types.contains_key(k) implies
            lookup(c1.type_bindings, TypeVariableId(k)) matches Some(
            Binding::Unbound(_, _),
        ) by {
            assert(step.state.solution.types.contains_key(k));
        }
    }
    lemma_perform_goes_on(c1, step.state.solution);
    lemma_fresh_goes_on(done, done.current_level);
    law_goes_on_further(c1, done, end);
    law_solved_types_accord(lhs, rhs, c, done, end);
    lemma_checked(place, false, before, tried, c1, end);
}

/// What a clean type stands for is clean.
proof fn lemma_head_clean(i: nat, t: Ty, k: Set<usize>, c: Cache)
    requires
        is_island(k, c.type_bindings),
        clean(t, k),
        c.type_bindings.len() <= usize::MAX,
        head(i, t, committed(c)) is Some,
    ensures
        clean(head(i, t, committed(c))->0, k),
    decreases i,
{
    if let Some(t1) = stands_for(t, committed(c)) {
        match t {
            Ty::Variable(v) | Ty::NamedGeneric(v, _) => {
                assert(c.type_bindings[v.0 as int] is Bound);
                assert(k.contains((v.0 as int) as usize));
            },
            _ => {},
        }
        lemma_head_clean((i - 1) as nat, t1, k, c);
    }
}

/// What the arguments agree with of what the type stands for.
proof fn lemma_agree_from_head(i: nat, a: Ty, b: Ty, s: State)
    requires
        b is Application,
        agree(false, a, b, s),
        head(i, a, s) is Some,
        !(head(i, a, s)->0 is Struct),
    ensures
        agree(false, head(i, a, s)->0, b, s),
    decreases i,
{
    if let Some(t) = stands_for(a, s) {
        assert forall|n: nat| agrees(false, n, t, b, s) by {
            assert(agrees(false, n + 1, a, b, s));
        }
        lemma_agree_from_head((i - 1) as nat, t, b, s);
    }
}

proof fn lemma_assigned_through(
    lhs: Ty,
    place: Place,
    lhs_location: Location,
    rhs: Ty,
    location: Location,
    c: Cache,
)
    requires
        assigned(lhs, place, lhs_location, rhs, location, c) matches Some((None, end))
            && end.type_bindings.len() <= usize::MAX && reports_nothing(c, end),
    ensures
        ({
            let (_, end) = assigned(lhs, place, lhs_location, rhs, location, c)->0;
            refers_to(lhs, rhs, end)
        }),
{
    let (_, end) = assigned(lhs, place, lhs_location, rhs, location, c)->0;
    law_unification_goes_on(lhs, rhs, c);
    let step = fresh_unification(lhs, rhs, c)->0;
    let tried = step.state.cache;
    law_unify_keeps(MAX_DEPTH as nat, lhs, rhs, committed(c));
    lemma_mutable_ref(tried);
    let (constructor, c1) = mutable_ref(tried);
    let expected = at_one(constructor, rhs);
    law_unification_goes_on(lhs, expected, c1);
    law_unify_keeps(MAX_DEPTH as nat, lhs, expected, committed(c1));
    let step2 = fresh_unification(lhs, expected, c1)->0;
    assert(gains(end, end));
    if step2.ok {
        law_solved_types_accord(lhs, expected, c1, end, end);
        assert(head(0, expected, committed(end)) == Some(expected));
        if fieldless(lhs, end) && fieldless(rhs, end) {
            let k1 = choose|k: Set<usize>| #[trigger]
                is_island(k, end.type_bindings) && clean(lhs, k);
            let k2 = choose|k: Set<usize>| #[trigger]
                is_island(k, end.type_bindings) && clean(rhs, k);
            lemma_islands_join(k1, k2, end.type_bindings);
            let n = tried.type_bindings.len();
            assert forall|i: int| n <= i < c1.type_bindings.len() implies (
            #[trigger] c1.type_bindings[i]) is Unbound by {}
            let k = lemma_island_is_quiet(k1.union(k2), n, c1, end);
            lemma_clean_in_larger(lhs, k1, k);
            lemma_clean_in_larger(rhs, k2, k);
            assert(clean(*constructor->sharedness, k) && clean(*constructor->lifetime, k));
            assert(clean(*constructor->mutability, k));
            assert(clean(constructor, k));
            assert(clean(expected, k)) by {
                assert(expected->Application_1[0] == rhs);
            }
            lemma_solved_agree(k, lhs, expected, c1, end, end);
            let s = committed(end);
            assert forall|i: nat|
                (#[trigger] head(i, lhs, s)) is Some && head(i, lhs, s)->0 is Application implies
                agree(false, head(i, lhs, s)->0->Application_1[0], rhs, s) by {
                let g = head(i, lhs, s)->0;
                lemma_agree_from_head(i, lhs, expected, s);
                assert forall|n: nat| agrees(false, n, g->Application_1[0], rhs, s) by {
                    assert(agrees(false, n + 1, g, expected, s));
                    assert(expected->Application_1[0] == rhs);
                }
            }
        }
    } else {
        lemma_assignment_reported_fits(lhs, lhs_location, rhs, location, step2.state.cache);
    }
}

proof fn lemma_assignment_reported_fits(
    lhs: Ty,
    lhs_location: Location,
    rhs: Ty,
    location: Location,
    c: Cache,
)
    requires
        assignment_reported(lhs, lhs_location, rhs, location, c) matches Some(end)
            && end.type_bindings.len() <= usize::MAX && reports_nothing(c, end),
    ensures
        refers_to(lhs, rhs, assignment_reported(lhs, lhs_location, rhs, location, c)->0),
{
    let end = assignment_reported(lhs, lhs_location, rhs, location, c)->0;
    let c0 = c.fresh(c.current_level);
    lemma_mutable_ref(c0);
    let (constructor, c1) = mutable_ref(c0);
    let expected = at_one(constructor, Ty::Variable(c.next_id()));
    law_unification_goes_on(lhs, expected, c1);
    law_unify_keeps(MAX_DEPTH as nat, lhs, expected, committed(c1));
    let step = fresh_unification(lhs, expected, c1)->0;
    let tried = step.state.cache;
    let r = step.state;
    assert(step.ok);
    let g = follow_in(lhs, tried)->0;
    let args = g->Application_1;
    law_unify_goes_on(args[0], rhs, location, Reason::AssignToWrongType, tried);
    assert(gains(end, end));
    law_unified_types_accord(args[0], rhs, location, Reason::AssignToWrongType, tried, end);
    let depth = MAX_DEPTH as nat;
    lemma_follow_is_head(depth, lhs, committed(tried));
    lemma_unified_heads(depth, lhs, expected, c1);
    assert(is_proper(committed(c1)));
    lemma_keeps_grow(tried, r);
    lemma_stay_grow(tried, end);
    assert forall|i: nat| (#[trigger] head(i, lhs, committed(end))) is Some implies head(
        i,
        lhs,
        committed(end),
    ) == Some(g) by {
        let m = lemma_head_further(i, lhs, committed(tried), committed(end));
        lemma_head_is_one(i, depth, lhs, committed(tried));
    }
    let m = lemma_head_still(depth, lhs, committed(tried), r);
    assert(begin_alike(g, expected)) by {
        assert(head(depth, lhs, r) == Some(g));
        assert(head(0, expected, r) == Some(expected));
    }
    if fieldless(lhs, end) && fieldless(rhs, end) {
        let k = choose|k: Set<usize>| #[trigger] is_island(k, end.type_bindings) && clean(lhs, k);
        let j = lemma_head_still(depth, lhs, committed(tried), committed(end));
        lemma_head_clean(depth, lhs, k, end);
        assert(clean(args[0], k));
        assert(fieldless(args[0], end));
    }
}

/// Following a type to something that is no variable gives its head, if that is no named generic.
proof fn lemma_follow_is_head(depth: nat, t: Ty, s: State)
    requires
        follow_in_state(depth, t, s) matches Some(g) && g is Application,
    ensures
        head(depth, t, s) == follow_in_state(depth, t, s),
    decreases depth,
{
    if let Ty::Variable(v) = t {
        if let Some(Binding::Bound(b)) = s.binding_of(v) {
            lemma_follow_is_head((depth - 1) as nat, b, s);
        }
    }
}

/// The end of the chain of bindings that starts at the type.
pub open spec fn follow_in_state(depth: nat, t: Ty, s: State) -> Option<Ty> {
    follow(depth, t, s.solution.types, s.cache.type_bindings)
}

/// A head that is no variable stays when more is bound.
proof fn lemma_head_still(i: nat, t: Ty, s: State, r: State) -> (j: nat)
    requires
        grows(s, r),
        head(i, t, s) matches Some(g) && !(g is Variable) && !(g is NamedGeneric),
    ensures
        j == i,
        head(i, t, r) == head(i, t, s),
    decreases i,
{
    if let Some(t1) = stands_for(t, s) {
        assert(stands_for(t, r) == Some(t1));
        lemma_head_still((i - 1) as nat, t1, s, r);
    }
    i
}

/// An assignment is of type unit, and has the constraints and the effects of both sides. If a
/// mutable reference was put in the place of its left-hand side, the types of both sides accord,
/// and what is assigned to is mutable, or it was reported that it is not. Otherwise, where nothing
/// was reported, the left-hand side refers to values of the type of the right-hand side.
pub proof fn law_assignment_is_well_typed<A: Expression>(t: Tree, c: Cache)
    requires
        only_goes_on::<A>(),
        t is Assignment,
        Assignment::<A>::rule(t, c) matches Some(o) && o.cache.type_bindings.len() <= usize::MAX,
    ensures
        ({
            let o = Assignment::<A>::rule(t, c)->0;
            let n = t->references.len();
            let references = o.tree->references;
            let lhs = *o.tree->Assignment_lhs;
            let rhs = *o.tree->Assignment_rhs;
            let to = assigned_type(lhs, references, n);
            &&& o.tree is Assignment
            &&& o.result.typ == unit_ty()
            &&& is_part::<A>(*t->Assignment_lhs, lhs, c, o.result, o.cache)
            &&& is_part::<A>(*t->Assignment_rhs, rhs, c, o.result, o.cache)
            &&& references.len() == n || references.len() == n + 1
            &&& references.len() == n + 1 ==> accord(to, noted(rhs), o.cache)
                && is_mutable_or_reported(
                if n == 0 {
                    lhs.place_of()
                } else {
                    Place::Temporary(t->references[n - 1].location)
                },
                false,
                c,
                o.cache,
            )
            &&& references.len() == n && reports_nothing(c, o.cache) ==> refers_to(
                to,
                noted(rhs),
                o.cache,
            )
        }),
{
    let end = Assignment::<A>::rule(t, c)->0;
    let (lhs, rhs) = (*t->Assignment_lhs, *t->Assignment_rhs);
    let references = t->references;
    let n = references.len();
    assert(goes_on(c, c));
    lemma_only_part::<A>(lhs, c, c);
    let o1 = inferred::<A>(lhs, c)->0;
    let own = o1.tree.place_of();
    lemma_references(n, references, own, o1.result.typ, o1.cache);
    lemma_references_stay(n, references, own, o1.result.typ, o1.cache);
    lemma_last_reference(n, references, own, o1.result.typ, o1.cache);
    let (done, typ, c1) = references_inferred(n, references, own, o1.result.typ, o1.cache)->0;
    law_goes_on_further(c, o1.cache, c1);
    lemma_only_part::<A>(rhs, c, c1);
    let o2 = inferred::<A>(rhs, c1)->0;
    let left = o1.result.with_type(typ);
    lemma_results(left, o2.result, o2.cache);
    let (joint, c2) = combined_results(left, o2.result, o2.cache)->0;
    law_goes_on_further(c, c1, o2.cache);
    law_goes_on_further(c, o2.cache, c2);
    let place = place_inside(n as int, references, own);
    let at = if n > 0 {
        references.last().location
    } else {
        o1.tree.location_of()
    };
    lemma_assigned(joint.typ, place, at, o2.result.typ, t.location_of(), c2);
    let (put, _) = assigned(joint.typ, place, at, o2.result.typ, t.location_of(), c2)->0;
    law_goes_on_further(o2.cache, c2, end.cache);
    law_goes_on_further(c1, o2.cache, end.cache);
    law_goes_on_further(o1.cache, c1, end.cache);
    lemma_joined_carries(left, o2.result, o2.cache);
    lemma_carries_still(left, joint, c2, end.cache);
    lemma_carries_still(o2.result, joint, c2, end.cache);
    assert(carries(o1.result, end.result, end.cache));
    assert(carries(o2.result, end.result, end.cache));
    lemma_part_still::<A>(lhs, o1.tree, c, o1.result, o1.cache, end.result, end.cache);
    lemma_part_still::<A>(rhs, o2.tree, c, o2.result, o2.cache, end.result, end.cache);
    if put is Some {
        lemma_assigned_directly(joint.typ, place, at, o2.result.typ, t.location_of(), c, c2);
    } else if reports_nothing(c, end.cache) {
        lemma_assigned_through(joint.typ, place, at, o2.result.typ, t.location_of(), c2);
    }
}

/// The last reference carries the type that what is assigned to has.
pub proof fn lemma_last_reference(
    n: nat,
    references: Seq<Referred>,
    lhs: Place,
    typ: Ty,
    c: Cache,
)
    requires
        n <= references.len(),
        references_inferred(n, references, lhs, typ, c) is Some,
    ensures
        ({
            let (done, t, _) = references_inferred(n, references, lhs, typ, c)->0;
            &&& done.len() == n
            &&& n == 0 ==> t == typ
            &&& n > 0 ==> done[n - 1].typ == Some(t)
        }),
    decreases n,
{
    if n > 0 {
        lemma_last_reference((n - 1) as nat, references, lhs, typ, c);
    }
}

/// A reference to an expression has the constraints and the effects of the expression. It is a
/// shared one to what has the type of the expression, as mutable as it is written. Only what is
/// mutable can be referred to mutably, or a temporary value; anything else is reported.
pub proof fn law_reference_is_well_typed<A: Expression>(t: Tree, c: Cache)
    requires
        only_goes_on::<A>(),
        t is Reference,
        Reference::<A>::rule(t, c) matches Some(o) && o.cache.type_bindings.len() <= usize::MAX,
    ensures
        ({
            let o = Reference::<A>::rule(t, c)->0;
            let expression = *o.tree->Reference_expression;
            let mutable = t->mutability == Mutability::Mutable;
            &&& o.tree is Reference
            &&& is_part::<A>(*t->Reference_expression, expression, c, o.result, o.cache)
            &&& o.result.typ matches Ty::Application(constructor, args) && args == seq![
                noted(expression),
            ] && (*constructor matches Ty::Ref { sharedness, mutability, .. } && *sharedness
                == Ty::Tag(TypeTag::Shared) && *mutability == Ty::Tag(
                if mutable {
                    TypeTag::Mutable
                } else {
                    TypeTag::Immutable
                },
            ))
            &&& mutable ==> is_mutable_or_reported(expression.place_of(), true, c, o.cache)
        }),
{
    let end = Reference::<A>::rule(t, c)->0;
    let expression = *t->Reference_expression;
    assert(goes_on(c, c));
    lemma_only_part::<A>(expression, c, c);
    let o = inferred::<A>(expression, c)->0;
    let place = o.tree.place_of();
    lemma_reference_typed(t->mutability, place, o.result.typ, o.cache);
    lemma_carries_itself(o.result, end.cache);
    lemma_part_still::<A>(expression, o.tree, c, o.result, o.cache, end.result, end.cache);
    if t->mutability == Mutability::Mutable {
        let c1 = place_checked(place, true, o.cache)->0;
        lemma_fresh_goes_on(c1, c1.current_level);
        lemma_checked(place, true, c, o.cache, c1, end.cache);
    }
}

/// Whether the node may be mutated, or it was reported that it may not: a variable has to be
/// mutable, and anything else but a field is a temporary value.
pub open spec fn may_be_mutated(
    t: Tree,
    allow_temporary: bool,
    before: Cache,
    after: Cache,
) -> bool {
    match t {
        Tree::Variable { definition: Some(id), location, .. } => {
            &&& id.0 < after.definition_infos.len()
            &&& after.definition_infos[id.0 as int].mutable || is_reported(
                location,
                Report::MutRefToImmutableVariable(after.definition_infos[id.0 as int].name),
                before,
                after,
            )
        },
        Tree::Variable { definition: None, .. } => true,
        Tree::MemberAccess { .. } => true,
        _ => allow_temporary || is_reported(
            t.location_of(),
            Report::MutRefToTemporary,
            before,
            after,
        ),
    }
}

/// What is assigned to through a reference that was put in its place, and what is referred to
/// mutably, may be mutated, or it is reported that it may not. A temporary value may be referred to
/// mutably, but not assigned to.
pub proof fn law_only_mutable_is_mutated<A: Expression>(t: Tree, c: Cache)
    requires
        only_goes_on::<A>(),
    ensures
        t is Assignment && t->references.len() == 0 ==> (Assignment::<A>::rule(t, c) matches Some(o)
            ==> (o.cache.type_bindings.len() <= usize::MAX && o.tree->references.len() > 0
            ==> may_be_mutated(*o.tree->Assignment_lhs, false, c, o.cache))),
        t is Reference && t->mutability == Mutability::Mutable ==> (Reference::<A>::rule(
            t,
            c,
        ) matches Some(o) ==> (o.cache.type_bindings.len() <= usize::MAX ==> may_be_mutated(
            *o.tree->Reference_expression,
            true,
            c,
            o.cache,
        ))),
{
    if t is Assignment && Assignment::<A>::rule(t, c) is Some {
        let o = Assignment::<A>::rule(t, c)->0;
        if o.cache.type_bindings.len() <= usize::MAX {
            law_assignment_is_well_typed::<A>(t, c);
        }
    }
    if t is Reference && Reference::<A>::rule(t, c) is Some {
        let o = Reference::<A>::rule(t, c)->0;
        if o.cache.type_bindings.len() <= usize::MAX {
            law_reference_is_well_typed::<A>(t, c);
        }
    }
}

/// Whether the type is that of shared references to what has the other type, as mutable as given.
pub open spec fn is_reference_to(t: Ty, mutability: Mutability, of: Ty) -> bool {
    t matches Ty::Application(constructor, args) && args == seq![of] && (
    *constructor matches Ty::Ref { sharedness, mutability: tag, .. } && *sharedness == Ty::Tag(
        TypeTag::Shared,
    ) && match mutability {
        Mutability::Mutable => *tag == Ty::Tag(TypeTag::Mutable),
        Mutability::Immutable => *tag == Ty::Tag(TypeTag::Immutable),
        Mutability::Polymorphic => false,
    })
}

/// Whether the reference in that place is one to what has the type of the one before it, or `typ`
/// if it is the first.
pub open spec fn refers_before(i: int, references: Seq<Referred>, typ: Ty) -> bool {
    &&& references[i].typ is Some
    &&& is_reference_to(
        references[i].typ->0,
        references[i].mutability,
        if i == 0 {
            typ
        } else {
            references[i - 1].typ->0
        },
    )
}

proof fn lemma_references_refer(
    n: nat,
    references: Seq<Referred>,
    lhs: Place,
    typ: Ty,
    c: Cache,
)
    requires
        n <= references.len(),
        references_inferred(n, references, lhs, typ, c) is Some,
    ensures
        ({
            let (done, t, _) = references_inferred(n, references, lhs, typ, c)->0;
            &&& done.len() == n
            &&& forall|i: int| 0 <= i < n ==> #[trigger] refers_before(i, done, typ)
            &&& n > 0 ==> done[n - 1].typ == Some(t)
            &&& n == 0 ==> t == typ
        }),
    decreases n,
{
    if n > 0 {
        let k = (n - 1) as nat;
        lemma_references_refer(k, references, lhs, typ, c);
        let (front, t, c1) = references_inferred(k, references, lhs, typ, c)->0;
        let (done, u, c2) = references_inferred(n, references, lhs, typ, c)->0;
        let r = references[n - 1];
        assert(done == front.push(Referred { typ: Some(u), ..r }));
        assert(is_reference_to(u, r.mutability, t)) by {
            let constructor = *u->Application_0;
            assert(u == at_one(constructor, t));
        }
        assert forall|i: int| 0 <= i < n implies #[trigger] refers_before(i, done, typ) by {
            if i < k {
                assert(refers_before(i, front, typ));
                assert(done[i] == front[i]);
                assert(i > 0 ==> done[i - 1] == front[i - 1]);
            } else {
                assert(done[i].typ == Some(u));
                assert(i > 0 ==> done[i - 1] == front[i - 1]);
            }
        }
    }
}

/// The references that stand in the place of the left-hand side of an assignment are shared ones,
/// each to what has the type of the one before it, and as mutable as they are written. The one that
/// is put there is mutable, and has the place of the assignment.
pub proof fn law_references_refer<A: Expression>(t: Tree, c: Cache)
    requires
        t is Assignment,
        Assignment::<A>::rule(t, c) is Some,
    ensures
        ({
            let o = Assignment::<A>::rule(t, c)->0;
            let given = t->references;
            let all = o.tree->references;
            let n = given.len();
            &&& o.tree is Assignment
            &&& all.len() == n || all.len() == n + 1
            &&& forall|i: int|
                0 <= i < all.len() ==> #[trigger] refers_before(
                    i,
                    all,
                    noted(*o.tree->Assignment_lhs),
                )
            &&& forall|i: int|
                0 <= i < n ==> (#[trigger] all[i]).mutability == given[i].mutability
                    && all[i].location == given[i].location
            &&& all.len() == n + 1 ==> all[n as int].mutability == Mutability::Mutable
                && all[n as int].location == t.location_of()
        }),
{
    let end = Assignment::<A>::rule(t, c)->0;
    let references = t->references;
    let n = references.len();
    let (lhs, rhs) = (*t->Assignment_lhs, *t->Assignment_rhs);
    let o1 = inferred::<A>(lhs, c)->0;
    let own = o1.tree.place_of();
    lemma_noted(A::rule(lhs, c)->0.tree, o1.result.typ);
    lemma_references_refer(n, references, own, o1.result.typ, o1.cache);
    lemma_references_stay(n, references, own, o1.result.typ, o1.cache);
    let (done, typ, c1) = references_inferred(n, references, own, o1.result.typ, o1.cache)->0;
    let o2 = inferred::<A>(rhs, c1)->0;
    let (joint, c2) = combined_results(o1.result.with_type(typ), o2.result, o2.cache)->0;
    assert(joint.typ == typ);
    let place = place_inside(n as int, references, own);
    let at = if n > 0 {
        references.last().location
    } else {
        o1.tree.location_of()
    };
    let (put, _) = assigned(joint.typ, place, at, o2.result.typ, t.location_of(), c2)->0;
    let all = end.tree->references;
    lemma_put_refers(joint.typ, place, at, o2.result.typ, t.location_of(), c2);
    assert forall|i: int| 0 <= i < all.len() implies #[trigger] refers_before(
        i,
        all,
        o1.result.typ,
    ) by {
        if i < n {
            assert(refers_before(i, done, o1.result.typ));
            assert(all[i] == done[i]);
        }
        if i > 0 {
            assert(all[i - 1] == done[i - 1]);
        }
    }
    assert forall|i: int| 0 <= i < n implies (#[trigger] all[i]).mutability
        == references[i].mutability && all[i].location == references[i].location by {
        assert(all[i] == done[i]);
    }
}

proof fn lemma_put_refers(
    lhs: Ty,
    place: Place,
    lhs_location: Location,
    rhs: Ty,
    location: Location,
    c: Cache,
)
    ensures
        assigned(lhs, place, lhs_location, rhs, location, c) matches Some((Some(r), _)) ==> {
            &&& r.mutability == Mutability::Mutable
            &&& r.location == location
            &&& r.typ matches Some(t) && is_reference_to(t, Mutability::Mutable, lhs)
        },
{
}

} // verus!
