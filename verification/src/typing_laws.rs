//! Inference fills in all types: once a node was inferred, it and all nodes inside it carry a type.

use crate::access::{lemma_references_stay, references_inferred, Assignment, MemberAccess};
use crate::branching::{handle_begun, infer_branches, infer_handlers, match_inferred, Resumed};
use crate::cache::{Cache, Def, DefinitionInfoId, Reason, Required, Scheme};
use crate::declarations::{EffectDefinition, Extern, TraitDefinition};
use crate::definitions::{bound_captures, function_initialized, marking};
use crate::expressions::{
    infer_and_combine, infer_statements, If, Import, Literal, NamedConstructor, Reference, Return,
    Sequence, TypeAnnotation, TypeDefinition,
};
use crate::functions::{function_ty, infer_arguments, FunctionCall, Lambda};
use crate::inference_laws::{law_binding_goes_on, lemma_fresh_types};
use crate::instantiate::Mutability;
use crate::patterns::{bound_pattern, bound_patterns, for_each_variable, fresh_types, Pat};
use crate::progress::{goes_on, law_goes_on_further, law_unify_goes_on};
use crate::results::{bool_ty, combined_results, pair_ty, result_of, unit_ty, Typing};
use crate::solve::{after_unify, fresh_unification};
use crate::tree::{inferred, Expression, Inferable, Outcome, Referred, Tree};
use crate::types::Ty;
use crate::values::{definition_begun, Begun};
use vstd::prelude::*;

verus! {

/// Whether the node carries a type, and so do all nodes inside it.
pub open spec fn is_typed(t: Tree) -> bool
    decreases t, 1nat,
{
    t.type_of() is Some && parts_typed(t)
}

/// Whether all nodes inside the node carry a type.
pub open spec fn parts_typed(t: Tree) -> bool
    decreases t, 0nat,
{
    match t {
        Tree::Lambda { body, .. } => is_typed(*body),
        Tree::FunctionCall { function, args, .. } => {
            &&& is_typed(*function)
            &&& forall|i: int| 0 <= i < args.len() ==> is_typed(#[trigger] args[i])
        },
        Tree::Definition { expr, .. } => is_typed(*expr),
        Tree::If { condition, consequence, otherwise, .. } => {
            &&& is_typed(*condition)
            &&& is_typed(*consequence)
            &&& is_typed(*otherwise)
        },
        Tree::Match { expression, patterns, branches, .. } => {
            &&& is_typed(*expression)
            &&& forall|i: int| 0 <= i < patterns.len() ==> is_typed(#[trigger] patterns[i])
            &&& forall|i: int| 0 <= i < branches.len() ==> is_typed(#[trigger] branches[i])
        },
        Tree::TypeAnnotation { lhs, .. } => is_typed(*lhs),
        Tree::TraitImpl { definitions, .. } => forall|i: int|
            0 <= i < definitions.len() ==> is_typed(#[trigger] definitions[i]),
        Tree::Return { expression, .. } => is_typed(*expression),
        Tree::Sequence { statements, .. } => forall|i: int|
            0 <= i < statements.len() ==> is_typed(#[trigger] statements[i]),
        Tree::MemberAccess { lhs, .. } => is_typed(*lhs),
        Tree::Assignment { lhs, references, rhs, .. } => {
            &&& is_typed(*lhs)
            &&& forall|i: int| 0 <= i < references.len() ==> (#[trigger] references[i]).typ is Some
            &&& is_typed(*rhs)
        },
        Tree::Handle { expression, patterns, branches, .. } => {
            &&& is_typed(*expression)
            &&& forall|i: int| 0 <= i < patterns.len() ==> is_typed(#[trigger] patterns[i])
            &&& forall|i: int| 0 <= i < branches.len() ==> is_typed(#[trigger] branches[i])
        },
        Tree::NamedConstructor { sequence, .. } => is_typed(*sequence),
        Tree::Reference { expression, .. } => is_typed(*expression),
        _ => true,
    }
}

/// Whether all the nodes, and all nodes inside them, carry a type.
pub open spec fn all_typed(ts: Seq<Tree>) -> bool {
    forall|i: int| 0 <= i < ts.len() ==> is_typed(#[trigger] ts[i])
}

/// Whether an outcome for the node, if there is one, has a type on every node inside it, and on the
/// node itself if there was one.
pub open spec fn outcome_typed(t: Tree, outcome: Option<Outcome>) -> bool {
    outcome matches Some(o) ==> parts_typed(o.tree) && (t.type_of() is Some
        ==> o.tree.type_of() is Some)
}

/// Whether inferring any node of the kind puts a type on every node inside it.
pub open spec fn types_parts<A: Inferable>() -> bool {
    forall|t: Tree, c: Cache| outcome_typed(t, #[trigger] A::rule(t, c))
}

/// Noting the type of a node completes it.
proof fn lemma_with_type(t: Tree, typ: Ty)
    requires
        parts_typed(t),
    ensures
        is_typed(t.with_type(typ)),
{
}

/// A node that was inferred is typed throughout.
pub proof fn law_inferred_is_typed<A: Inferable>(t: Tree, c: Cache)
    requires
        types_parts::<A>(),
    ensures
        inferred::<A>(t, c) matches Some(o) ==> is_typed(o.tree),
{
    assert(outcome_typed(t, A::rule(t, c)));
    if let Some(o) = A::rule(t, c) {
        lemma_with_type(o.tree, o.result.typ);
    }
}

/// Nodes without others inside them have nothing to type but themselves.
pub proof fn law_leaves_are_typed()
    ensures
        types_parts::<Literal>(),
        types_parts::<TypeDefinition>(),
        types_parts::<Import>(),
        types_parts::<TraitDefinition>(),
        types_parts::<Extern>(),
        types_parts::<EffectDefinition>(),
{
}

/// Inferring an annotation types what is annotated.
pub proof fn law_annotation_is_typed<A: Expression>()
    requires
        types_parts::<A>(),
    ensures
        types_parts::<TypeAnnotation<A>>(),
{
    assert forall|t: Tree, c: Cache| outcome_typed(
        t,
        #[trigger] TypeAnnotation::<A>::rule(t, c),
    ) by {
        if let Tree::TypeAnnotation { lhs, .. } = t {
            law_inferred_is_typed::<A>(*lhs, c);
        }
    }
}

proof fn lemma_combined_is_typed<A: Inferable>(part: Tree, so_far: Typing, c: Cache)
    requires
        types_parts::<A>(),
    ensures
        infer_and_combine::<A>(part, so_far, c) matches Some((t, _, _, _)) ==> is_typed(t),
{
    law_inferred_is_typed::<A>(part, c);
}

/// Inferring a conditional types its parts.
pub proof fn law_if_is_typed<A: Expression>()
    requires
        types_parts::<A>(),
    ensures
        types_parts::<If<A>>(),
{
    assert forall|t: Tree, c: Cache| outcome_typed(t, #[trigger] If::<A>::rule(t, c)) by {
        let outcome = If::<A>::rule(t, c);
        if let (Tree::If { condition, consequence, otherwise, .. }, Some(end)) = (t, outcome) {
            let o = inferred::<A>(*condition, c)->0;
            let place = o.tree.location_of();
            let reason = Reason::NonBoolInCondition;
            let c1 = after_unify(bool_ty(), o.result.typ, place, reason, o.cache)->0;
            let (_, joint, _, c2) = infer_and_combine::<A>(*consequence, o.result, c1)->0;
            law_inferred_is_typed::<A>(*condition, c);
            lemma_combined_is_typed::<A>(*consequence, o.result, c1);
            lemma_combined_is_typed::<A>(*otherwise, joint, c2);
        }
    }
}

/// Inferring a return, a named constructor, a reference or the access to a field types what it is
/// made of.
pub proof fn law_unary_is_typed<A: Expression>()
    requires
        types_parts::<A>(),
    ensures
        types_parts::<Return<A>>(),
        types_parts::<NamedConstructor<A>>(),
        types_parts::<Reference<A>>(),
        types_parts::<MemberAccess<A>>(),
{
    assert forall|t: Tree, c: Cache| outcome_typed(t, #[trigger] Return::<A>::rule(t, c)) by {
        if let Tree::Return { expression, .. } = t {
            law_inferred_is_typed::<A>(*expression, c);
        }
    }
    assert forall|t: Tree, c: Cache| outcome_typed(
        t,
        #[trigger] NamedConstructor::<A>::rule(t, c),
    ) by {
        if let Tree::NamedConstructor { sequence, .. } = t {
            law_inferred_is_typed::<A>(*sequence, c);
        }
    }
    assert forall|t: Tree, c: Cache| outcome_typed(t, #[trigger] Reference::<A>::rule(t, c)) by {
        if let Tree::Reference { expression, .. } = t {
            law_inferred_is_typed::<A>(*expression, c);
        }
    }
    assert forall|t: Tree, c: Cache| outcome_typed(t, #[trigger] MemberAccess::<A>::rule(t, c)) by {
        if let Tree::MemberAccess { lhs, .. } = t {
            law_inferred_is_typed::<A>(*lhs, c);
        }
    }
}

/// Inferring an assignment types both sides, and the references to the left-hand one.
pub proof fn law_assignment_is_typed<A: Expression>()
    requires
        types_parts::<A>(),
    ensures
        types_parts::<Assignment<A>>(),
{
    assert forall|t: Tree, c: Cache| outcome_typed(t, #[trigger] Assignment::<A>::rule(t, c)) by {
        if let (Tree::Assignment { lhs, references, rhs, .. }, Some(_)) = (
            t,
            Assignment::<A>::rule(t, c),
        ) {
            law_inferred_is_typed::<A>(*lhs, c);
            let o = inferred::<A>(*lhs, c)->0;
            let place = o.tree.place_of();
            let n = references.len();
            lemma_references_stay(n, references, place, o.result.typ, o.cache);
            let (_, _, c1) = references_inferred(n, references, place, o.result.typ, o.cache)->0;
            law_inferred_is_typed::<A>(*rhs, c1);
        }
    }
}

/// What is assigned to is the left-hand side as it was inferred, with the references in its place,
/// or a mutable reference to that, which is put around it: exactly where the types of both sides
/// unify. The reference has the place of the assignment, and carries a type.
pub proof fn law_assigned_through_reference<A: Expression>(t: Tree, c: Cache)
    requires
        t is Assignment,
        Assignment::<A>::rule(t, c) is Some,
    ensures
        ({
            let references = t->references;
            let n = references.len();
            let lhs = inferred::<A>(*t->Assignment_lhs, c)->0;
            let (done, typ, c1) = references_inferred(
                n,
                references,
                lhs.tree.place_of(),
                lhs.result.typ,
                lhs.cache,
            )->0;
            let rhs = inferred::<A>(*t->Assignment_rhs, c1)->0;
            let (joint, c2) = combined_results(
                lhs.result.with_type(typ),
                rhs.result,
                rhs.cache,
            )->0;
            let before = lhs.tree.inside_references(n, done);
            let assignee = (Assignment::<A>::rule(t, c)->0).tree.assignee();
            if fresh_unification(joint.typ, rhs.result.typ, c2)->0.ok {
                assignee matches Some(
                    Tree::Reference { mutability, expression, location, typ },
                ) && mutability == Mutability::Mutable && *expression == before && location
                    == t.location_of() && typ is Some
            } else {
                assignee == Some(before)
            }
        }),
{
    let references = t->references;
    let n = references.len();
    let lhs = inferred::<A>(*t->Assignment_lhs, c)->0;
    let place = lhs.tree.place_of();
    lemma_references_stay(n, references, place, lhs.result.typ, lhs.cache);
    let (done, _, _) = references_inferred(n, references, place, lhs.result.typ, lhs.cache)->0;
    let all = (Assignment::<A>::rule(t, c)->0).tree->references;
    lemma_inside_same(n, lhs.tree, done, all);
}

proof fn lemma_inside_same(n: nat, t: Tree, rs: Seq<Referred>, more: Seq<Referred>)
    requires
        n <= rs.len() <= more.len(),
        forall|i: int| 0 <= i < rs.len() ==> more[i] == #[trigger] rs[i],
    ensures
        t.inside_references(n, more) == t.inside_references(n, rs),
    decreases n,
{
    if n > 0 {
        lemma_inside_same((n - 1) as nat, t, rs, more);
        assert(more[n - 1] == rs[n - 1]);
    }
}

/// A reference in the place of the left-hand side is inferred as one that is written.
pub proof fn law_reference_as_written<A: Expression>(lhs: Tree, r: Referred, c: Cache)
    ensures
        inferred::<Reference<A>>(lhs.inside_references(1, seq![r]), c) == match inferred::<A>(
            lhs,
            c,
        ) {
            None => None,
            Some(o) => match references_inferred(
                1,
                seq![r],
                o.tree.place_of(),
                o.result.typ,
                o.cache,
            ) {
                None => None,
                Some((done, typ, cache)) => Some(
                    Outcome {
                        tree: o.tree.inside_references(1, done),
                        result: o.result.with_type(typ),
                        cache,
                    },
                ),
            },
        },
{
    reveal_with_fuel(Tree::inside_references, 2);
    reveal_with_fuel(references_inferred, 2);
}

proof fn lemma_statements_are_typed<A: Inferable>(n: nat, ts: Seq<Tree>, so_far: Typing, c: Cache)
    requires
        types_parts::<A>(),
    ensures
        infer_statements::<A>(n, ts, so_far, c) matches Some((all, _, _, _)) ==> all_typed(all),
    decreases n,
{
    if n > 0 {
        lemma_statements_are_typed::<A>((n - 1) as nat, ts, so_far, c);
        if let Some((_, joint, _, c1)) = infer_statements::<A>((n - 1) as nat, ts, so_far, c) {
            lemma_combined_is_typed::<A>(ts[n - 1], joint, c1);
        }
    }
}

/// Inferring a sequence types all its statements.
pub proof fn law_sequence_is_typed<A: Expression>()
    requires
        types_parts::<A>(),
    ensures
        types_parts::<Sequence<A>>(),
{
    assert forall|t: Tree, c: Cache| outcome_typed(t, #[trigger] Sequence::<A>::rule(t, c)) by {
        if let Tree::Sequence { statements, .. } = t {
            let (start, c1) = result_of(unit_ty(), Seq::empty(), c);
            lemma_statements_are_typed::<A>(statements.len(), statements, start, c1);
        }
    }
}

/// Inferring a function types its body.
pub proof fn law_lambda_is_typed<A: Expression>()
    requires
        types_parts::<A>(),
    ensures
        types_parts::<Lambda<A>>(),
{
    assert forall|t: Tree, c: Cache| outcome_typed(t, #[trigger] Lambda::<A>::rule(t, c)) by {
        if let Tree::Lambda { parameters, environment, body, location, .. } = t {
            let (types, c1) = fresh_types(parameters.len(), c);
            if let Some((_, c2)) = bound_patterns(parameters, types, Seq::empty(), false, c1) {
                if let Some((_, c3)) = bound_captures(environment.len(), environment, c2) {
                    law_inferred_is_typed::<A>(*body, c3);
                    assert(outcome_typed(*body, A::rule(*body, c3)));
                }
            }
        }
    }
}

proof fn lemma_arguments_are_typed<A: Inferable>(n: nat, args: Seq<Tree>, f: Typing, c: Cache)
    requires
        types_parts::<A>(),
    ensures
        infer_arguments::<A>(n, args, f, c) matches Some((all, _, _, _)) ==> all_typed(all),
    decreases n,
{
    if n > 0 {
        lemma_arguments_are_typed::<A>((n - 1) as nat, args, f, c);
        if let Some((_, _, joint, c1)) = infer_arguments::<A>((n - 1) as nat, args, f, c) {
            lemma_combined_is_typed::<A>(args[n - 1], joint, c1);
        }
    }
}

/// Inferring a call types the function and all arguments.
pub proof fn law_call_is_typed<A: Expression>()
    requires
        types_parts::<A>(),
    ensures
        types_parts::<FunctionCall<A>>(),
{
    assert forall|t: Tree, c: Cache| outcome_typed(t, #[trigger] FunctionCall::<A>::rule(t, c)) by {
        if let Tree::FunctionCall { function, args, .. } = t {
            law_inferred_is_typed::<A>(*function, c);
            if let Some(o) = inferred::<A>(*function, c) {
                lemma_arguments_are_typed::<A>(args.len(), args, o.result, o.cache);
            }
        }
    }
}

/// Inferring the value of a definition types it and the definition.
pub proof fn law_definition_is_typed<A: Expression>(t: Tree, c: Cache)
    requires
        types_parts::<A>(),
    ensures
        definition_begun::<A>(t, c) matches Some(Begun::Value(o, _)) ==> is_typed(o.tree),
{
    if let Tree::Definition { pattern, expr, level: Some(own), .. } = t {
        let initialized = match expr.lambda_of() {
            Some((args, body_type)) => function_initialized(pattern, args, body_type, c),
            None => Some(c),
        };
        if let Some(c1) = initialized {
            if let Some(c2) = for_each_variable(pattern, c1, marking()) {
                law_inferred_is_typed::<A>(*expr, c2.at_level(own));
            }
        }
    }
}

proof fn lemma_branches_are_typed<A: Inferable>(
    n: nat,
    patterns: Seq<Tree>,
    bodies: Seq<Tree>,
    so_far: Typing,
    c: Cache,
)
    requires
        types_parts::<A>(),
    ensures
        infer_branches::<A>(n, patterns, bodies, so_far, c) matches Some(b) ==> all_typed(
            b.patterns,
        ) && all_typed(b.bodies),
    decreases n,
{
    if n <= 1 {
        let pattern = patterns[0];
        lemma_combined_is_typed::<A>(pattern, so_far, c);
        if let Some((pattern1, joint, own, c1)) = infer_and_combine::<A>(pattern, so_far, c) {
            let at = pattern1.location_of();
            let reason = Reason::MatchPatternTypeDiffers;
            if let Some(c2) = after_unify(own.typ, so_far.typ, at, reason, c1) {
                lemma_combined_is_typed::<A>(bodies[0], joint, c2);
            }
        }
    } else {
        let k = (n - 1) as nat;
        lemma_branches_are_typed::<A>(k, patterns, bodies, so_far, c);
        if let Some(b) = infer_branches::<A>(k, patterns, bodies, so_far, c) {
            law_inferred_is_typed::<A>(patterns[n - 1], b.cache);
            if let Some(o) = inferred::<A>(patterns[n - 1], b.cache) {
                law_inferred_is_typed::<A>(bodies[n - 1], o.cache);
            }
        }
    }
}

/// Inferring a match types the value, and the pattern and the body of each branch.
pub proof fn law_match_is_typed<A: Expression>(t: Tree, c: Cache)
    requires
        types_parts::<A>(),
        t matches Tree::Match { patterns, branches, .. } ==> patterns.len() == branches.len(),
    ensures
        outcome_typed(t, match_inferred::<A>(t, c)),
{
    if let Tree::Match { expression, patterns, branches, .. } = t {
        law_inferred_is_typed::<A>(*expression, c);
        if let Some(o) = inferred::<A>(*expression, c) {
            let c1 = o.cache.fresh(o.cache.current_level);
            lemma_branches_are_typed::<A>(branches.len(), patterns, branches, o.result, c1);
        }
    }
}

proof fn lemma_handlers_are_typed<A: Inferable>(
    n: nat,
    patterns: Seq<Tree>,
    bodies: Seq<Tree>,
    resumes: Seq<DefinitionInfoId>,
    shared: Resumed,
    c: Cache,
)
    requires
        types_parts::<A>(),
    ensures
        infer_handlers::<A>(n, patterns, bodies, resumes, shared, c) matches Some(h) ==> all_typed(
            h.patterns,
        ) && all_typed(h.bodies) && h.patterns.len() == n && h.bodies.len() == n,
    decreases n,
{
    if n > 0 {
        let k = (n - 1) as nat;
        lemma_handlers_are_typed::<A>(k, patterns, bodies, resumes, shared, c);
        if let Some(h) = infer_handlers::<A>(k, patterns, bodies, resumes, shared, c) {
            law_inferred_is_typed::<A>(patterns[n - 1], h.cache);
            if let Some(o) = inferred::<A>(patterns[n - 1], h.cache) {
                let resume = resumes[n - 1];
                let resume_type = function_ty(
                    seq![o.result.typ],
                    shared.typ,
                    shared.environment,
                    shared.effects,
                );
                let def = Def {
                    typ: Some(Scheme::Mono(resume_type)),
                    ..o.cache.definition_infos[resume.0 as int]
                };
                law_inferred_is_typed::<A>(bodies[n - 1], o.cache.with_definition(resume, def));
            }
        }
    }
}

/// Inferring a handler types the handled expression, and the pattern and the body of each branch,
/// where every branch has its `resume`.
pub proof fn law_handler_is_typed<A: Expression>(t: Tree, c: Cache)
    requires
        types_parts::<A>(),
        t matches Tree::Handle { patterns, branches, resumes, .. } ==> patterns.len()
            == branches.len() == resumes.len(),
    ensures
        handle_begun::<A>(t, c) matches Some((t1, _, _, _)) ==> parts_typed(t1),
{
    if let (
        Tree::Handle { expression, patterns, branches, resumes, .. },
        Some((t1, _, shared, h)),
    ) = (t, handle_begun::<A>(t, c)) {
        law_inferred_is_typed::<A>(*expression, c);
        let o = inferred::<A>(*expression, c)->0;
        let level = o.cache.current_level;
        let c2 = o.cache.fresh(level).fresh(level);
        let n = branches.len();
        lemma_handlers_are_typed::<A>(n, patterns, branches, resumes, shared, c2);
        assert(h.patterns + patterns.skip(n as int) =~= h.patterns);
        assert(h.bodies + branches.skip(n as int) =~= h.bodies);
    }
}

/// Whether the pattern carries a type, and so do all patterns inside it and each constructor.
pub open spec fn pattern_typed(p: Pat) -> bool
    decreases p,
{
    &&& p.typ() is Some
    &&& match p {
        Pat::Annotation(lhs, _, _) => pattern_typed(*lhs),
        Pat::Call { args, function_type, .. } => {
            &&& function_type is Some
            &&& forall|i: int| 0 <= i < args.len() ==> pattern_typed(#[trigger] args[i])
        },
        _ => true,
    }
}

/// Binding a pattern to a type types all of it, or there is something to report.
pub proof fn law_pattern_is_typed(
    p: Pat,
    t: Ty,
    required: Seq<Required>,
    generalize: bool,
    c: Cache,
)
    ensures
        bound_pattern(p, t, required, generalize, c) matches Some((p1, c1)) ==> pattern_typed(p1)
            || c.diagnostics.len() < c1.diagnostics.len(),
    decreases p,
{
    match p {
        Pat::Annotation(lhs, typ, location) => {
            if let Some(declared) = typ {
                let reason = Reason::PatternTypeDoesNotMatchAnnotatedType;
                law_unify_goes_on(t, declared, location, reason, c);
                if let Some(c1) = after_unify(t, declared, location, reason, c) {
                    law_pattern_is_typed(*lhs, t, required, generalize, c1);
                }
            }
        },
        Pat::Call { is_pair: true, args, location, .. } => {
            let (elements, c1) = fresh_types(args.len(), c);
            lemma_fresh_types(args.len(), c);
            let reason = Reason::ExpectedPairTypeFromPattern;
            law_unify_goes_on(pair_ty(elements), t, location, reason, c1);
            if let Some(c2) = after_unify(pair_ty(elements), t, location, reason, c1) {
                let c3 = c2.fresh(c2.current_level);
                lemma_patterns_are_typed(args, elements, required, generalize, c3);
            }
        },
        _ => {},
    }
}

proof fn lemma_patterns_are_typed(
    ps: Seq<Pat>,
    ts: Seq<Ty>,
    required: Seq<Required>,
    generalize: bool,
    c: Cache,
)
    ensures
        bound_patterns(ps, ts, required, generalize, c) matches Some((ps1, c1)) ==> goes_on(c, c1)
            && ((forall|i: int| 0 <= i < ps1.len() ==> pattern_typed(#[trigger] ps1[i]))
            || c.diagnostics.len() < c1.diagnostics.len()),
    decreases ps,
{
    if ps.len() > 0 {
        let front = ps.subrange(0, ps.len() - 1);
        let last = ps[ps.len() - 1];
        let t = ts[ps.len() - 1];
        lemma_patterns_are_typed(front, ts, required, generalize, c);
        if let Some((_, c1)) = bound_patterns(front, ts, required, generalize, c) {
            law_pattern_is_typed(last, t, required, generalize, c1);
            law_binding_goes_on(last, t, required, generalize, c1);
            if let Some((_, c2)) = bound_pattern(last, t, required, generalize, c1) {
                law_goes_on_further(c, c1, c2);
            }
        }
    }
}

} // verus!
