//! What the inference rules are for: which types accord once a node was inferred with nothing to
//! report, and that no constraint and no effect of a part is lost.

use crate::accord::{
    accord, law_accord_stays, law_heads_fit_itself, law_primitives_differ, law_unified_types_accord,
    lemma_stay_grow,
};
use crate::agreement::{committed, law_agree_reflexive};
use crate::branching::{first_branch, infer_branches, match_inferred, next_branch, Branches};
use crate::cache::{Cache, Location, Reason};
use crate::effect_flow::{flows, law_flow_stays, law_joined_rows_flow};
use crate::expressions::{
    infer_and_combine, infer_statements, If, NamedConstructor, Return, Sequence, TypeAnnotation,
};
use crate::inference_laws::{
    law_match_goes_on, lemma_branches, lemma_infer_and_combine, lemma_inferred, lemma_next_branch,
    lemma_results, lemma_statements, only_goes_on,
};
use crate::progress::{goes_on, law_goes_on_further, law_unify_goes_on, lemma_fresh_goes_on};
use crate::results::{bool_ty, combined_results, result_of, unit_ty, Typing};
use crate::solve::after_unify;
use crate::tree::{inferred, Expression, Inferable, Outcome, Tree};
use crate::types::{PrimitiveType, Ty};
use vstd::prelude::*;

verus! {

/// Whether each constraint of the part is one of the whole, and each effect that the part has, or
/// turns out to have, is one of the whole.
pub open spec fn carries(part: Typing, whole: Typing, c: Cache) -> bool {
    &&& forall|i: int|
        0 <= i < part.traits.len() ==> whole.traits.contains(#[trigger] part.traits[i])
    &&& forall|wanted: spec_fn(Ty) -> bool| #[trigger]
        flows(part.effects, whole.effects, wanted, committed(c))
}

/// Whether the node was inferred after one cache and before the other, and what that came to is
/// noted in the tree.
pub open spec fn inferred_between<A: Inferable>(
    part: Tree,
    c1: Cache,
    o: Outcome,
    noted: Tree,
    before: Cache,
    after: Cache,
) -> bool {
    &&& inferred::<A>(part, c1) == Some(o)
    &&& o.tree == noted
    &&& goes_on(before, c1)
    &&& goes_on(o.cache, after)
}

/// Whether the node was inferred in between, and its constraints and effects are those of the
/// whole.
pub open spec fn is_part<A: Inferable>(
    part: Tree,
    noted: Tree,
    before: Cache,
    whole: Typing,
    after: Cache,
) -> bool {
    exists|c1: Cache, o: Outcome| #[trigger]
        inferred_between::<A>(part, c1, o, noted, before, after) && carries(o.result, whole, after)
}

/// Whether nothing was reported from the one cache to the other.
pub open spec fn reports_nothing(before: Cache, after: Cache) -> bool {
    after.diagnostics.len() == before.diagnostics.len()
}

/// The type noted on a node that was inferred.
pub open spec fn noted(t: Tree) -> Ty {
    t.type_of()->0
}

/// A node that was inferred carries the type that was found.
pub proof fn lemma_noted(t: Tree, typ: Ty)
    ensures
        t.with_type(typ).type_of() == Some(typ),
        t.with_type(typ).location_of() == t.location_of(),
{
}

pub proof fn lemma_carries_itself(a: Typing, c: Cache)
    ensures
        carries(a, a, c),
{
    assert forall|i: int| 0 <= i < a.traits.len() implies a.traits.contains(
        #[trigger] a.traits[i],
    ) by {}
}

/// What results joined hold is in what they are joined to.
pub proof fn lemma_joined_carries(a: Typing, b: Typing, c: Cache)
    requires
        combined_results(a, b, c) matches Some((_, c1)) && c1.type_bindings.len() <= usize::MAX,
    ensures
        ({
            let (joint, c1) = combined_results(a, b, c)->0;
            carries(a, joint, c1) && carries(b, joint, c1)
        }),
{
    let (joint, c1) = combined_results(a, b, c)->0;
    assert forall|wanted: spec_fn(Ty) -> bool| #[trigger]
        flows(a.effects, joint.effects, wanted, committed(c1)) by {
        law_joined_rows_flow(a.effects, b.effects, wanted, c);
    }
    assert forall|wanted: spec_fn(Ty) -> bool| #[trigger]
        flows(b.effects, joint.effects, wanted, committed(c1)) by {
        law_joined_rows_flow(a.effects, b.effects, wanted, c);
    }
    assert forall|i: int| 0 <= i < a.traits.len() implies joint.traits.contains(
        #[trigger] a.traits[i],
    ) by {
        assert(joint.traits[i] == a.traits[i]);
    }
    assert forall|i: int| 0 <= i < b.traits.len() implies joint.traits.contains(
        #[trigger] b.traits[i],
    ) by {
        assert(joint.traits[a.traits.len() + i] == b.traits[i]);
    }
}

/// What is held is held in every later cache.
pub proof fn lemma_carries_still(a: Typing, b: Typing, c: Cache, end: Cache)
    requires
        carries(a, b, c),
        goes_on(c, end),
        end.type_bindings.len() <= usize::MAX,
    ensures
        carries(a, b, end),
{
    lemma_stay_grow(c, end);
    assert forall|wanted: spec_fn(Ty) -> bool| #[trigger]
        flows(a.effects, b.effects, wanted, committed(end)) by {
        assert(flows(a.effects, b.effects, wanted, committed(c)));
        law_flow_stays(a.effects, b.effects, wanted, committed(c), committed(end));
    }
}

pub proof fn lemma_carries_further(a: Typing, b: Typing, d: Typing, c: Cache)
    requires
        carries(a, b, c),
        carries(b, d, c),
    ensures
        carries(a, d, c),
{
    assert forall|i: int| 0 <= i < a.traits.len() implies d.traits.contains(
        #[trigger] a.traits[i],
    ) by {
        assert(b.traits.contains(a.traits[i]));
        let j = choose|j: int| 0 <= j < b.traits.len() && b.traits[j] == a.traits[i];
        assert(d.traits.contains(b.traits[j]));
    }
    assert forall|wanted: spec_fn(Ty) -> bool| #[trigger]
        flows(a.effects, d.effects, wanted, committed(c)) by {
        assert(flows(a.effects, b.effects, wanted, committed(c)));
        assert(flows(b.effects, d.effects, wanted, committed(c)));
    }
}

/// What is part of a whole is part of the larger whole, later on.
pub proof fn lemma_part_still<A: Inferable>(
    part: Tree,
    tree: Tree,
    before: Cache,
    whole: Typing,
    c: Cache,
    larger: Typing,
    end: Cache,
)
    requires
        is_part::<A>(part, tree, before, whole, c),
        goes_on(c, end),
        carries(whole, larger, end),
        end.type_bindings.len() <= usize::MAX,
    ensures
        is_part::<A>(part, tree, before, larger, end),
{
    let (c1, o) = choose|c1: Cache, o: Outcome| #[trigger]
        inferred_between::<A>(part, c1, o, tree, before, c) && carries(o.result, whole, c);
    law_goes_on_further(o.cache, c, end);
    lemma_carries_still(o.result, whole, c, end);
    lemma_carries_further(o.result, whole, larger, end);
    assert(inferred_between::<A>(part, c1, o, tree, before, end));
}

/// A node that is inferred next, and joined to the result so far, is part of it.
pub proof fn lemma_next_part<A: Inferable>(part: Tree, so_far: Typing, before: Cache, c: Cache)
    requires
        only_goes_on::<A>(),
        goes_on(before, c),
        infer_and_combine::<A>(part, so_far, c) matches Some((_, _, _, c1))
            && c1.type_bindings.len() <= usize::MAX,
    ensures
        ({
            let (tree, joint, own, c1) = infer_and_combine::<A>(part, so_far, c)->0;
            &&& is_part::<A>(part, tree, before, joint, c1)
            &&& carries(so_far, joint, c1)
            &&& goes_on(c, c1)
            &&& noted(tree) == own.typ
            &&& tree.type_of() is Some
        }),
{
    let (tree, joint, own, c1) = infer_and_combine::<A>(part, so_far, c)->0;
    let o = inferred::<A>(part, c)->0;
    lemma_infer_and_combine::<A>(part, so_far, c);
    lemma_inferred::<A>(part, c);
    lemma_results(so_far, o.result, o.cache);
    lemma_joined_carries(so_far, o.result, o.cache);
    assert(inferred_between::<A>(part, c, o, tree, before, c1));
    lemma_noted(A::rule(part, c)->0.tree, own.typ);
}

/// A node that is inferred alone is part of its own result.
pub proof fn lemma_only_part<A: Inferable>(part: Tree, before: Cache, c: Cache)
    requires
        only_goes_on::<A>(),
        goes_on(before, c),
        inferred::<A>(part, c) is Some,
    ensures
        ({
            let o = inferred::<A>(part, c)->0;
            &&& is_part::<A>(part, o.tree, before, o.result, o.cache)
            &&& goes_on(c, o.cache)
            &&& noted(o.tree) == o.result.typ
            &&& o.tree.type_of() is Some
        }),
{
    let o = inferred::<A>(part, c)->0;
    lemma_inferred::<A>(part, c);
    lemma_carries_itself(o.result, o.cache);
    lemma_noted(A::rule(part, c)->0.tree, o.result.typ);
    assert(goes_on(o.cache, o.cache));
    assert(inferred_between::<A>(part, c, o, o.tree, before, o.cache));
}

/// What was unified with nothing to report accords at the end.
pub proof fn lemma_unified(
    a: Ty,
    b: Ty,
    location: Location,
    reason: Reason,
    before: Cache,
    c: Cache,
    end: Cache,
)
    requires
        goes_on(before, c),
        after_unify(a, b, location, reason, c) matches Some(c1) && goes_on(c1, end),
        reports_nothing(before, end),
        end.type_bindings.len() <= usize::MAX,
    ensures
        accord(a, b, end),
{
    law_unify_goes_on(a, b, location, reason, c);
    law_unified_types_accord(a, b, location, reason, c, end);
}

/// A conditional that was inferred with nothing to report has a boolean condition, and branches of
/// one type, which is its own. It has the constraints and the effects of its three parts.
pub proof fn law_conditional_is_well_typed<A: Expression>(t: Tree, c: Cache)
    requires
        only_goes_on::<A>(),
        t is If,
        If::<A>::rule(t, c) matches Some(o) && o.cache.type_bindings.len() <= usize::MAX,
    ensures
        ({
            let o = If::<A>::rule(t, c)->0;
            &&& o.tree is If
            &&& o.result.typ == noted(*o.tree->consequence)
            &&& is_part::<A>(*t->condition, *o.tree->condition, c, o.result, o.cache)
            &&& is_part::<A>(*t->consequence, *o.tree->consequence, c, o.result, o.cache)
            &&& is_part::<A>(*t->otherwise, *o.tree->otherwise, c, o.result, o.cache)
            &&& reports_nothing(c, o.cache) ==> accord(
                bool_ty(),
                noted(*o.tree->condition),
                o.cache,
            ) && accord(noted(*o.tree->consequence), noted(*o.tree->otherwise), o.cache)
        }),
{
    let end = If::<A>::rule(t, c)->0;
    let (condition, consequence, otherwise) = (*t->condition, *t->consequence, *t->otherwise);
    let location = t.location_of();
    let o = inferred::<A>(condition, c)->0;
    let place = o.tree.location_of();
    let reason = Reason::NonBoolInCondition;
    assert(goes_on(c, c));
    lemma_only_part::<A>(condition, c, c);
    law_unify_goes_on(bool_ty(), o.result.typ, place, reason, o.cache);
    let c1 = after_unify(bool_ty(), o.result.typ, place, reason, o.cache)->0;
    law_goes_on_further(c, o.cache, c1);
    lemma_infer_and_combine::<A>(consequence, o.result, c1);
    let (_, joint, first, c2) = infer_and_combine::<A>(consequence, o.result, c1)->0;
    law_goes_on_further(c, c1, c2);
    lemma_infer_and_combine::<A>(otherwise, joint, c2);
    let (_, all, second, c3) = infer_and_combine::<A>(otherwise, joint, c2)->0;
    let last = Reason::IfBranchMismatch;
    law_unify_goes_on(first.typ, second.typ, location, last, c3);
    lemma_next_part::<A>(consequence, o.result, c, c1);
    lemma_next_part::<A>(otherwise, joint, c, c2);
    law_goes_on_further(c2, c3, end.cache);
    law_goes_on_further(c1, c2, end.cache);
    law_goes_on_further(c, c2, c3);
    law_goes_on_further(o.cache, c1, end.cache);
    lemma_carries_itself(all, end.cache);
    lemma_carries_still(joint, all, c3, end.cache);
    lemma_carries_still(o.result, joint, c2, end.cache);
    lemma_carries_further(o.result, joint, all, end.cache);
    lemma_part_still::<A>(otherwise, *end.tree->otherwise, c, all, c3, end.result, end.cache);
    lemma_part_still::<A>(consequence, *end.tree->consequence, c, joint, c2, end.result, end.cache);
    lemma_part_still::<A>(
        condition,
        *end.tree->condition,
        c,
        o.result,
        o.cache,
        end.result,
        end.cache,
    );
    if reports_nothing(c, end.cache) {
        lemma_unified(bool_ty(), o.result.typ, place, reason, c, o.cache, end.cache);
        assert(goes_on(end.cache, end.cache));
        lemma_unified(first.typ, second.typ, location, last, c, c3, end.cache);
    }
}

/// An annotated expression that was inferred with nothing to report is of the declared type. It is
/// inferred like the expression alone.
pub proof fn law_annotated_is_as_declared<A: Expression>(t: Tree, c: Cache)
    requires
        only_goes_on::<A>(),
        t is TypeAnnotation,
        TypeAnnotation::<A>::rule(t, c) matches Some(o) && o.cache.type_bindings.len()
            <= usize::MAX,
    ensures
        ({
            let o = TypeAnnotation::<A>::rule(t, c)->0;
            &&& o.tree is TypeAnnotation
            &&& o.tree.type_of() == t.type_of()
            &&& o.result.typ == noted(*o.tree->TypeAnnotation_lhs)
            &&& is_part::<A>(
                *t->TypeAnnotation_lhs,
                *o.tree->TypeAnnotation_lhs,
                c,
                o.result,
                o.cache,
            )
            &&& reports_nothing(c, o.cache) ==> accord(noted(t), o.result.typ, o.cache)
        }),
{
    let end = TypeAnnotation::<A>::rule(t, c)->0;
    let lhs = *t->TypeAnnotation_lhs;
    let location = t.location_of();
    let o = inferred::<A>(lhs, c)->0;
    let reason = Reason::DoesNotMatchAnnotatedType;
    assert(goes_on(c, c));
    assert(goes_on(end.cache, end.cache));
    lemma_only_part::<A>(lhs, c, c);
    law_unify_goes_on(noted(t), o.result.typ, location, reason, o.cache);
    lemma_carries_itself(o.result, end.cache);
    lemma_part_still::<A>(lhs, o.tree, c, o.result, o.cache, end.result, end.cache);
    if reports_nothing(c, end.cache) {
        lemma_unified(noted(t), o.result.typ, location, reason, c, o.cache, end.cache);
    }
}

/// A return has the constraints and the effects of what is returned. It is itself of any type: a
/// variable that is new, and not bound.
pub proof fn law_return_is_of_any_type<A: Expression>(t: Tree, c: Cache)
    requires
        only_goes_on::<A>(),
        t is Return,
        Return::<A>::rule(t, c) matches Some(o) && o.cache.type_bindings.len() <= usize::MAX,
    ensures
        ({
            let o = Return::<A>::rule(t, c)->0;
            &&& o.tree is Return
            &&& is_part::<A>(
                *t->Return_expression,
                *o.tree->Return_expression,
                c,
                o.result,
                o.cache,
            )
            &&& is_new(o.result.typ, c, o.cache)
        }),
{
    let end = Return::<A>::rule(t, c)->0;
    let expression = *t->Return_expression;
    let o = inferred::<A>(expression, c)->0;
    assert(goes_on(c, c));
    lemma_only_part::<A>(expression, c, c);
    lemma_fresh_goes_on(o.cache, o.cache.current_level);
    lemma_carries_itself(o.result, end.cache);
    lemma_part_still::<A>(expression, o.tree, c, o.result, o.cache, end.result, end.cache);
}

/// Whether the type is a variable that the one cache does not have and the other leaves unbound.
pub open spec fn is_new(t: Ty, before: Cache, after: Cache) -> bool {
    t matches Ty::Variable(v) && before.type_bindings.len() <= v.0 < after.type_bindings.len()
        && after.type_bindings[v.0 as int] is Unbound
}

/// A named constructor is inferred like the sequence that it stands for.
pub proof fn law_constructor_is_its_sequence<A: Expression>(t: Tree, c: Cache)
    requires
        only_goes_on::<A>(),
        t is NamedConstructor,
        NamedConstructor::<A>::rule(t, c) is Some,
    ensures
        ({
            let o = NamedConstructor::<A>::rule(t, c)->0;
            &&& o.tree is NamedConstructor
            &&& o.result.typ == noted(*o.tree->sequence)
            &&& is_part::<A>(*t->sequence, *o.tree->sequence, c, o.result, o.cache)
        }),
{
    assert(goes_on(c, c));
    lemma_only_part::<A>(*t->sequence, c, c);
}

/// Whether the nodes were inferred, and are part of the whole.
pub open spec fn are_parts<A: Inferable>(
    n: nat,
    parts: Seq<Tree>,
    trees: Seq<Tree>,
    before: Cache,
    whole: Typing,
    after: Cache,
) -> bool {
    &&& trees.len() == n
    &&& forall|i: int|
        0 <= i < n ==> is_part::<A>(parts[i], #[trigger] trees[i], before, whole, after)
}

/// A further part, and what was part before.
pub proof fn lemma_further_part<A: Inferable>(
    n: nat,
    parts: Seq<Tree>,
    trees: Seq<Tree>,
    last: Tree,
    before: Cache,
    whole: Typing,
    c: Cache,
    larger: Typing,
    end: Cache,
)
    requires
        n < parts.len(),
        are_parts::<A>(n, parts, trees, before, whole, c),
        goes_on(c, end),
        carries(whole, larger, end),
        is_part::<A>(parts[n as int], last, before, larger, end),
        end.type_bindings.len() <= usize::MAX,
    ensures
        are_parts::<A>(n + 1, parts, trees.push(last), before, larger, end),
{
    assert forall|i: int| 0 <= i < n + 1 implies is_part::<A>(
        parts[i],
        #[trigger] trees.push(last)[i],
        before,
        larger,
        end,
    ) by {
        if i < n {
            assert(is_part::<A>(parts[i], trees[i], before, whole, c));
            lemma_part_still::<A>(parts[i], trees[i], before, whole, c, larger, end);
        }
    }
}

pub proof fn lemma_parts_still<A: Inferable>(
    n: nat,
    parts: Seq<Tree>,
    trees: Seq<Tree>,
    before: Cache,
    whole: Typing,
    c: Cache,
    larger: Typing,
    end: Cache,
)
    requires
        are_parts::<A>(n, parts, trees, before, whole, c),
        goes_on(c, end),
        carries(whole, larger, end),
        end.type_bindings.len() <= usize::MAX,
    ensures
        are_parts::<A>(n, parts, trees, before, larger, end),
{
    assert forall|i: int| 0 <= i < n implies is_part::<A>(
        parts[i],
        #[trigger] trees[i],
        before,
        larger,
        end,
    ) by {
        lemma_part_still::<A>(parts[i], trees[i], before, whole, c, larger, end);
    }
}

proof fn lemma_statements_are_parts<A: Inferable>(
    n: nat,
    ts: Seq<Tree>,
    so_far: Typing,
    before: Cache,
    c: Cache,
)
    requires
        only_goes_on::<A>(),
        n <= ts.len(),
        goes_on(before, c),
        infer_statements::<A>(n, ts, so_far, c) matches Some((_, _, _, c1))
            && c1.type_bindings.len() <= usize::MAX,
    ensures
        ({
            let (trees, joint, last, c1) = infer_statements::<A>(n, ts, so_far, c)->0;
            &&& are_parts::<A>(n, ts, trees, before, joint, c1)
            &&& goes_on(c, c1)
            &&& n > 0 ==> last == noted(trees[n - 1])
        }),
    decreases n,
{
    lemma_statements::<A>(n, ts, so_far, c);
    if n > 0 {
        let k = (n - 1) as nat;
        let (trees, joint, _, c1) = infer_statements::<A>(k, ts, so_far, c)->0;
        lemma_statements::<A>(k, ts, so_far, c);
        lemma_infer_and_combine::<A>(ts[n - 1], joint, c1);
        lemma_statements_are_parts::<A>(k, ts, so_far, before, c);
        law_goes_on_further(before, c, c1);
        lemma_next_part::<A>(ts[n - 1], joint, before, c1);
        let (last, joint2, _, c2) = infer_and_combine::<A>(ts[n - 1], joint, c1)->0;
        lemma_further_part::<A>(k, ts, trees, last, before, joint, c1, joint2, c2);
    }
}

/// A sequence has the type of its last statement, and the constraints and the effects of all its
/// statements.
pub proof fn law_sequence_has_all<A: Expression>(t: Tree, c: Cache)
    requires
        only_goes_on::<A>(),
        t is Sequence,
        Sequence::<A>::rule(t, c) matches Some(o) && o.cache.type_bindings.len() <= usize::MAX,
    ensures
        ({
            let o = Sequence::<A>::rule(t, c)->0;
            let n = t->statements.len();
            &&& o.tree is Sequence
            &&& n > 0
            &&& are_parts::<A>(n, t->statements, o.tree->statements, c, o.result, o.cache)
            &&& o.result.typ == noted(o.tree->statements.last())
        }),
{
    let end = Sequence::<A>::rule(t, c)->0;
    let ts = t->statements;
    let (start, c1) = result_of(unit_ty(), Seq::empty(), c);
    lemma_fresh_goes_on(c, c.current_level);
    lemma_statements_are_parts::<A>(ts.len(), ts, start, c, c1);
    let (trees, joint, _, _) = infer_statements::<A>(ts.len(), ts, start, c1)->0;
    lemma_carries_itself(joint, end.cache);
    assert(goes_on(end.cache, end.cache));
    lemma_parts_still::<A>(ts.len(), ts, trees, c, joint, end.cache, end.result, end.cache);
}

/// Whether the types noted on the nodes all accord with the type.
pub open spec fn all_accord(trees: Seq<Tree>, typ: Ty, c: Cache) -> bool {
    forall|i: int| 0 <= i < trees.len() ==> accord(noted(#[trigger] trees[i]), typ, c)
}

pub proof fn lemma_all_accord_still(trees: Seq<Tree>, typ: Ty, c: Cache, end: Cache)
    requires
        all_accord(trees, typ, c),
        goes_on(c, end),
        end.type_bindings.len() <= usize::MAX,
    ensures
        all_accord(trees, typ, end),
{
    assert forall|i: int| 0 <= i < trees.len() implies accord(
        noted(#[trigger] trees[i]),
        typ,
        end,
    ) by {
        law_accord_stays(noted(trees[i]), typ, c, end);
    }
}

/// What holds of branches that were inferred after the given cache.
pub open spec fn branches_well_typed<A: Inferable>(
    n: nat,
    patterns: Seq<Tree>,
    bodies: Seq<Tree>,
    so_far: Typing,
    before: Cache,
    b: Branches,
) -> bool {
    &&& are_parts::<A>(n, patterns, b.patterns, before, b.joint, b.cache)
    &&& are_parts::<A>(n, bodies, b.bodies, before, b.joint, b.cache)
    &&& carries(so_far, b.joint, b.cache)
    &&& b.joint.typ == so_far.typ
    &&& b.typ == noted(b.bodies[0])
    &&& reports_nothing(before, b.cache) ==> all_accord(b.patterns, so_far.typ, b.cache)
        && all_accord(b.bodies, b.typ, b.cache)
}

proof fn lemma_first_well_typed<A: Inferable>(
    patterns: Seq<Tree>,
    bodies: Seq<Tree>,
    so_far: Typing,
    before: Cache,
    c: Cache,
)
    requires
        only_goes_on::<A>(),
        goes_on(before, c),
        patterns.len() > 0,
        bodies.len() > 0,
        first_branch::<A>(patterns[0], bodies[0], so_far, c) matches Some(b)
            && b.cache.type_bindings.len() <= usize::MAX,
    ensures
        branches_well_typed::<A>(
            1,
            patterns,
            bodies,
            so_far,
            before,
            first_branch::<A>(patterns[0], bodies[0], so_far, c)->0,
        ),
{
    let b = first_branch::<A>(patterns[0], bodies[0], so_far, c)->0;
    let (pattern, joint1, own, c1) = infer_and_combine::<A>(patterns[0], so_far, c)->0;
    let at = pattern.location_of();
    let reason = Reason::MatchPatternTypeDiffers;
    lemma_infer_and_combine::<A>(patterns[0], so_far, c);
    law_unify_goes_on(own.typ, so_far.typ, at, reason, c1);
    let c2 = after_unify(own.typ, so_far.typ, at, reason, c1)->0;
    lemma_infer_and_combine::<A>(bodies[0], joint1, c2);
    law_goes_on_further(before, c, c1);
    law_goes_on_further(before, c1, c2);
    law_goes_on_further(c1, c2, b.cache);
    lemma_next_part::<A>(patterns[0], so_far, before, c);
    lemma_next_part::<A>(bodies[0], joint1, before, c2);
    lemma_part_still::<A>(patterns[0], pattern, before, joint1, c1, b.joint, b.cache);
    lemma_carries_still(so_far, joint1, c1, b.cache);
    lemma_carries_further(so_far, joint1, b.joint, b.cache);
    if reports_nothing(before, b.cache) {
        lemma_unified(own.typ, so_far.typ, at, reason, before, c1, b.cache);
        lemma_accord_itself(b.typ, b.cache);
    }
}

proof fn lemma_next_well_typed<A: Inferable>(
    n: nat,
    patterns: Seq<Tree>,
    bodies: Seq<Tree>,
    so_far: Typing,
    before: Cache,
    b: Branches,
)
    requires
        only_goes_on::<A>(),
        0 < n < patterns.len(),
        n < bodies.len(),
        goes_on(before, b.cache),
        branches_well_typed::<A>(n, patterns, bodies, so_far, before, b),
        next_branch::<A>(b, patterns[n as int], bodies[n as int]) matches Some(b1)
            && b1.cache.type_bindings.len() <= usize::MAX,
    ensures
        branches_well_typed::<A>(
            n + 1,
            patterns,
            bodies,
            so_far,
            before,
            next_branch::<A>(b, patterns[n as int], bodies[n as int])->0,
        ),
{
    let pattern = patterns[n as int];
    let body = bodies[n as int];
    let b1 = next_branch::<A>(b, pattern, body)->0;
    let o1 = inferred::<A>(pattern, b.cache)->0;
    let o2 = inferred::<A>(body, o1.cache)->0;
    let at = o1.tree.location_of();
    let reason = Reason::MatchPatternTypeDiffers;
    lemma_only_part::<A>(pattern, before, b.cache);
    law_goes_on_further(before, b.cache, o1.cache);
    lemma_only_part::<A>(body, before, o1.cache);
    law_unify_goes_on(o1.result.typ, b.joint.typ, at, reason, o2.cache);
    let c1 = after_unify(o1.result.typ, b.joint.typ, at, reason, o2.cache)->0;
    let at2 = o2.tree.location_of();
    let reason2 = Reason::MatchReturnTypeDiffers;
    law_unify_goes_on(o2.result.typ, b.typ, at2, reason2, c1);
    let c2 = after_unify(o2.result.typ, b.typ, at2, reason2, c1)->0;
    lemma_results(b.joint, o1.result, c2);
    let (joint1, c3) = combined_results(b.joint, o1.result, c2)->0;
    lemma_results(joint1, o2.result, c3);
    law_goes_on_further(before, o1.cache, o2.cache);
    law_goes_on_further(before, o2.cache, c1);
    law_goes_on_further(c2, c3, b1.cache);
    law_goes_on_further(c1, c2, b1.cache);
    law_goes_on_further(o2.cache, c1, b1.cache);
    law_goes_on_further(o1.cache, o2.cache, b1.cache);
    law_goes_on_further(b.cache, o1.cache, b1.cache);
    lemma_joined_carries(b.joint, o1.result, c2);
    lemma_joined_carries(joint1, o2.result, c3);
    lemma_carries_still(b.joint, joint1, c3, b1.cache);
    lemma_carries_still(o1.result, joint1, c3, b1.cache);
    lemma_carries_further(b.joint, joint1, b1.joint, b1.cache);
    lemma_carries_further(o1.result, joint1, b1.joint, b1.cache);
    lemma_carries_still(so_far, b.joint, b.cache, b1.cache);
    lemma_carries_further(so_far, b.joint, b1.joint, b1.cache);
    lemma_part_still::<A>(pattern, o1.tree, before, o1.result, o1.cache, b1.joint, b1.cache);
    lemma_part_still::<A>(body, o2.tree, before, o2.result, o2.cache, b1.joint, b1.cache);
    lemma_further_part::<A>(
        n,
        patterns,
        b.patterns,
        o1.tree,
        before,
        b.joint,
        b.cache,
        b1.joint,
        b1.cache,
    );
    lemma_further_part::<A>(
        n,
        bodies,
        b.bodies,
        o2.tree,
        before,
        b.joint,
        b.cache,
        b1.joint,
        b1.cache,
    );
    if reports_nothing(before, b1.cache) {
        lemma_all_accord_still(b.patterns, so_far.typ, b.cache, b1.cache);
        lemma_all_accord_still(b.bodies, b.typ, b.cache, b1.cache);
        lemma_unified(o1.result.typ, b.joint.typ, at, reason, before, o2.cache, b1.cache);
        law_goes_on_further(before, o2.cache, c1);
        lemma_unified(o2.result.typ, b.typ, at2, reason2, before, c1, b1.cache);
    }
}

proof fn lemma_branches_well_typed<A: Inferable>(
    n: nat,
    patterns: Seq<Tree>,
    bodies: Seq<Tree>,
    so_far: Typing,
    before: Cache,
    c: Cache,
)
    requires
        only_goes_on::<A>(),
        0 < n <= patterns.len(),
        n <= bodies.len(),
        goes_on(before, c),
        infer_branches::<A>(n, patterns, bodies, so_far, c) matches Some(b)
            && b.cache.type_bindings.len() <= usize::MAX,
    ensures
        branches_well_typed::<A>(
            n,
            patterns,
            bodies,
            so_far,
            before,
            infer_branches::<A>(n, patterns, bodies, so_far, c)->0,
        ),
        goes_on(before, infer_branches::<A>(n, patterns, bodies, so_far, c)->0.cache),
    decreases n,
{
    lemma_branches::<A>(n, patterns, bodies, so_far, c);
    law_goes_on_further(before, c, infer_branches::<A>(n, patterns, bodies, so_far, c)->0.cache);
    if n <= 1 {
        lemma_first_well_typed::<A>(patterns, bodies, so_far, before, c);
    } else {
        let k = (n - 1) as nat;
        let b = infer_branches::<A>(k, patterns, bodies, so_far, c)->0;
        lemma_next_branch::<A>(b, patterns[n - 1], bodies[n - 1]);
        lemma_branches_well_typed::<A>(k, patterns, bodies, so_far, before, c);
        lemma_next_well_typed::<A>(k, patterns, bodies, so_far, before, b);
    }
}

/// In a match that was inferred with nothing to report, every pattern has the type of the value
/// that is matched, and every branch that of the first one, which is the type of the match. A match
/// without branches is of any type. It has the constraints and the effects of all its parts.
pub proof fn law_match_is_well_typed<A: Expression>(t: Tree, c: Cache)
    requires
        only_goes_on::<A>(),
        t is Match,
        t->Match_patterns.len() == t->Match_branches.len(),
        match_inferred::<A>(t, c) matches Some(o) && o.cache.type_bindings.len() <= usize::MAX,
    ensures
        ({
            let o = match_inferred::<A>(t, c)->0;
            let n = t->Match_branches.len();
            let value = *o.tree->Match_expression;
            let patterns = o.tree->Match_patterns;
            let bodies = o.tree->Match_branches;
            &&& o.tree is Match
            &&& is_part::<A>(*t->Match_expression, value, c, o.result, o.cache)
            &&& n > 0 ==> are_parts::<A>(n, t->Match_patterns, patterns, c, o.result, o.cache)
            &&& n > 0 ==> are_parts::<A>(n, t->Match_branches, bodies, c, o.result, o.cache)
            &&& n > 0 ==> o.result.typ == noted(bodies[0])
            &&& n == 0 ==> is_new(o.result.typ, c, o.cache)
            &&& n > 0 && reports_nothing(c, o.cache) ==> all_accord(
                patterns,
                noted(value),
                o.cache,
            ) && all_accord(bodies, o.result.typ, o.cache)
        }),
{
    let end = match_inferred::<A>(t, c)->0;
    let expression = *t->Match_expression;
    let (patterns, bodies) = (t->Match_patterns, t->Match_branches);
    let o = inferred::<A>(expression, c)->0;
    let c1 = o.cache.fresh(o.cache.current_level);
    assert(goes_on(c, c));
    lemma_only_part::<A>(expression, c, c);
    lemma_fresh_goes_on(o.cache, o.cache.current_level);
    law_goes_on_further(c, o.cache, c1);
    if bodies.len() > 0 {
        let n = bodies.len();
        lemma_branches_well_typed::<A>(n, patterns, bodies, o.result, c, c1);
        let b = infer_branches::<A>(n, patterns, bodies, o.result, c1)->0;
        lemma_branches::<A>(n, patterns, bodies, o.result, c1);
        law_goes_on_further(o.cache, c1, b.cache);
        assert(goes_on(b.cache, b.cache));
        lemma_carries_itself(b.joint, b.cache);
        lemma_parts_still::<A>(n, patterns, b.patterns, c, b.joint, b.cache, end.result, b.cache);
        lemma_parts_still::<A>(n, bodies, b.bodies, c, b.joint, b.cache, end.result, b.cache);
        lemma_part_still::<A>(expression, o.tree, c, o.result, o.cache, end.result, b.cache);
    } else {
        lemma_carries_itself(o.result, end.cache);
        lemma_part_still::<A>(expression, o.tree, c, o.result, o.cache, end.result, end.cache);
    }
}

/// Every type accords with itself.
pub proof fn lemma_accord_itself(t: Ty, c: Cache)
    ensures
        accord(t, t, c),
{
    law_heads_fit_itself(t, committed(c));
    law_agree_reflexive(false, t, committed(c));
}

/// A match on values of one primitive type with a pattern of another one is reported.
pub proof fn law_wrong_pattern_is_reported<A: Expression>(
    t: Tree,
    c: Cache,
    i: int,
    p: PrimitiveType,
    q: PrimitiveType,
)
    requires
        only_goes_on::<A>(),
        t is Match,
        t->Match_patterns.len() == t->Match_branches.len(),
        match_inferred::<A>(t, c) matches Some(o) && o.cache.type_bindings.len() <= usize::MAX,
        0 <= i < t->Match_branches.len(),
        p != q,
        ({
            let o = match_inferred::<A>(t, c)->0;
            &&& noted(o.tree->Match_patterns[i]) == Ty::Primitive(p)
            &&& noted(*o.tree->Match_expression) == Ty::Primitive(q)
        }),
    ensures
        c.diagnostics.len() < (match_inferred::<A>(t, c)->0).cache.diagnostics.len(),
{
    law_match_is_well_typed::<A>(t, c);
    law_match_goes_on::<A>(t, c);
    let o = match_inferred::<A>(t, c)->0;
    if reports_nothing(c, o.cache) {
        assert(accord(
            noted(o.tree->Match_patterns[i]),
            noted(*o.tree->Match_expression),
            o.cache,
        ));
        law_primitives_differ(Ty::Primitive(p), Ty::Primitive(q), p, q, 0, 0, o.cache);
    }
}

} // verus!
