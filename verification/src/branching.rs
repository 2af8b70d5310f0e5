//! Expressions with several branches: matching on a value, and handling effects.

use crate::cache::{
    constraints, Cache, Constraint, Def, DefinitionInfoId, GeneralizedType, Location, ModuleCache,
    Reason, Scheme, TraitConstraints, TypeErrorKind,
};
use crate::definitions::{continuation_ty, free_tys, resume_environment_type, set_definition_type};
use crate::effect_sets::{combined, effect_row, without_handled, EffectRow};
use crate::expressions::infer_and_combine;
use crate::functions::function_ty;
use crate::patterns::opt_ty;
use crate::results::{combined_results, tuple_ty, TypeResult, Typing};
use crate::rules::least;
use crate::solve::{after_unify, unify_or_report};
use crate::subst::next_type_variable;
use crate::tree::{infer, inferred, Expression, Inferable, Locatable, Node, Outcome, Tree, Typed};
use crate::types::{effect_tys, tys, Effect, EffectSet, FunctionType, Ty, Type};
use vstd::prelude::*;

verus! {

/// A pattern and what is evaluated where it matches.
#[derive(Debug)]
pub struct Branch<A> {
    pub pattern: A,
    pub body: A,
}

/// The patterns of the branches.
pub open spec fn branch_patterns<A: Node>(v: Seq<Branch<A>>) -> Seq<Tree> {
    Seq::new(v.len(), |i: int| v[i].pattern.tree())
}

/// What the branches evaluate.
pub open spec fn branch_bodies<A: Node>(v: Seq<Branch<A>>) -> Seq<Tree> {
    Seq::new(v.len(), |i: int| v[i].body.tree())
}

/// A match on the value of an expression.
#[derive(Debug)]
pub struct Match<A> {
    pub expression: Box<A>,
    pub branches: Vec<Branch<A>>,
    pub location: Location,
    pub typ: Option<Type>,
}

impl<A: Node> Node for Match<A> {
    open spec fn tree(&self) -> Tree {
        Tree::Match {
            expression: Box::new(self.expression.tree()),
            patterns: branch_patterns(self.branches@),
            branches: branch_bodies(self.branches@),
            location: self.location,
            typ: opt_ty(self.typ),
        }
    }
}

impl<A: Node> Locatable for Match<A> {
    fn locate(&self) -> (r: Location) {
        self.location
    }
}

impl<A: Node> Typed for Match<A> {
    fn get_type(&self) -> (r: Option<&Type>) {
        self.typ.as_ref()
    }

    fn set_type(&mut self, typ: Type) {
        self.typ = Some(typ);
    }
}

/// What inferring some branches comes to: their trees, the joint result, the type of a branch and
/// the cache.
#[verifier::ext_equal]
pub struct Branches {
    pub patterns: Seq<Tree>,
    pub bodies: Seq<Tree>,
    pub joint: Typing,
    pub typ: Ty,
    pub cache: Cache,
}

/// The first branch: its pattern has the type of the value, and its body has any type.
pub open spec fn first_branch<A: Inferable>(
    pattern: Tree,
    body: Tree,
    so_far: Typing,
    c: Cache,
) -> Option<Branches> {
    match infer_and_combine::<A>(pattern, so_far, c) {
        None => None,
        Some((pattern1, joint1, own, c1)) => match after_unify(
            own.typ,
            so_far.typ,
            pattern1.location_of(),
            Reason::MatchPatternTypeDiffers,
            c1,
        ) {
            None => None,
            Some(c2) => match infer_and_combine::<A>(body, joint1, c2) {
                None => None,
                Some((body1, joint, own_body, cache)) => Some(
                    Branches {
                        patterns: seq![pattern1],
                        bodies: seq![body1],
                        joint,
                        typ: own_body.typ,
                        cache,
                    },
                ),
            },
        },
    }
}

/// A further branch: its pattern has the type of the value, and its body that of the first branch.
pub open spec fn next_branch<A: Inferable>(b: Branches, pattern: Tree, body: Tree) -> Option<
    Branches,
> {
    match inferred::<A>(pattern, b.cache) {
        None => None,
        Some(o1) => match inferred::<A>(body, o1.cache) {
            None => None,
            Some(o2) => match after_unify(
                o1.result.typ,
                b.joint.typ,
                o1.tree.location_of(),
                Reason::MatchPatternTypeDiffers,
                o2.cache,
            ) {
                None => None,
                Some(c1) => match after_unify(
                    o2.result.typ,
                    b.typ,
                    o2.tree.location_of(),
                    Reason::MatchReturnTypeDiffers,
                    c1,
                ) {
                    None => None,
                    Some(c2) => match combined_results(b.joint, o1.result, c2) {
                        None => None,
                        Some((joint1, c3)) => match combined_results(joint1, o2.result, c3) {
                            None => None,
                            Some((joint, cache)) => Some(
                                Branches {
                                    patterns: b.patterns.push(o1.tree),
                                    bodies: b.bodies.push(o2.tree),
                                    joint,
                                    typ: b.typ,
                                    cache,
                                },
                            ),
                        },
                    },
                },
            },
        },
    }
}

/// The first `n` branches, of which there is at least one.
pub open spec fn infer_branches<A: Inferable>(
    n: nat,
    patterns: Seq<Tree>,
    bodies: Seq<Tree>,
    so_far: Typing,
    c: Cache,
) -> Option<Branches>
    decreases n,
{
    if n <= 1 {
        first_branch::<A>(patterns[0], bodies[0], so_far, c)
    } else {
        match infer_branches::<A>((n - 1) as nat, patterns, bodies, so_far, c) {
            None => None,
            Some(b) => next_branch::<A>(b, patterns[n - 1], bodies[n - 1]),
        }
    }
}

proof fn lemma_infer_branches_none<A: Inferable>(
    n: nat,
    m: nat,
    patterns: Seq<Tree>,
    bodies: Seq<Tree>,
    so_far: Typing,
    c: Cache,
)
    requires
        1 <= n <= m,
        infer_branches::<A>(n, patterns, bodies, so_far, c) is None,
    ensures
        infer_branches::<A>(m, patterns, bodies, so_far, c) is None,
    decreases m,
{
    if n < m {
        lemma_infer_branches_none::<A>(n, (m - 1) as nat, patterns, bodies, so_far, c);
    }
}

/// The outcome for a match, up to where its patterns are compiled. A match without branches is of
/// any type.
pub open spec fn match_inferred<A: Inferable>(t: Tree, c: Cache) -> Option<Outcome> {
    match t {
        Tree::Match { expression, patterns, branches, location, typ } => match inferred::<A>(
            *expression,
            c,
        ) {
            None => None,
            Some(o) => {
                let c1 = o.cache.fresh(o.cache.current_level);
                if branches.len() == 0 {
                    Some(
                        Outcome {
                            tree: Tree::Match {
                                expression: Box::new(o.tree),
                                patterns,
                                branches,
                                location,
                                typ,
                            },
                            result: o.result.with_type(Ty::Variable(o.cache.next_id())),
                            cache: c1,
                        },
                    )
                } else {
                    match infer_branches::<A>(
                        branches.len(),
                        patterns,
                        branches,
                        o.result,
                        c1,
                    ) {
                        None => None,
                        Some(b) => Some(
                            Outcome {
                                tree: Tree::Match {
                                    expression: Box::new(o.tree),
                                    patterns: b.patterns,
                                    branches: b.bodies,
                                    location,
                                    typ,
                                },
                                result: b.joint.with_type(b.typ),
                                cache: b.cache,
                            },
                        ),
                    }
                }
            },
        },
        _ => None,
    }
}

impl<A: Expression> Branch<A> {
    /// Infers the first branch of a match. Gives the type of its body.
    fn infer_first(&mut self, result: &mut TypeResult, cache: &mut ModuleCache) -> (r: Option<Type>)
        ensures
            match first_branch::<A>(
                old(self).pattern.tree(),
                old(self).body.tree(),
                old(result)@,
                old(cache)@,
            ) {
                None => r is None,
                Some(b) => r is Some && r->0@ == b.typ && final(result)@ == b.joint
                    && final(cache)@ == b.cache && b.patterns == seq![final(self).pattern.tree()]
                    && b.bodies == seq![final(self).body.tree()],
            },
    {
        let mut pattern = infer(&mut self.pattern, cache)?;
        result.combine(&mut pattern, cache)?;
        unify_or_report(
            &pattern.typ,
            &result.typ,
            self.pattern.locate(),
            cache,
            TypeErrorKind::MatchPatternTypeDiffers,
        )?;
        let mut body = infer(&mut self.body, cache)?;
        result.combine(&mut body, cache)?;
        Some(body.typ)
    }

    /// Infers a further branch of a match, whose first branch has the given type.
    fn infer_next(
        &mut self,
        typ: &Type,
        result: &mut TypeResult,
        cache: &mut ModuleCache,
        Ghost(patterns): Ghost<Seq<Tree>>,
        Ghost(bodies): Ghost<Seq<Tree>>,
    ) -> (r: Option<()>)
        ensures
            match next_branch::<A>(
                (Branches {
                    patterns,
                    bodies,
                    joint: old(result)@,
                    typ: typ@,
                    cache: old(cache)@,
                }),
                old(self).pattern.tree(),
                old(self).body.tree(),
            ) {
                None => r is None,
                Some(b) => r is Some && b == (Branches {
                    patterns: patterns.push(final(self).pattern.tree()),
                    bodies: bodies.push(final(self).body.tree()),
                    joint: final(result)@,
                    typ: typ@,
                    cache: final(cache)@,
                }),
            },
    {
        let mut pattern = infer(&mut self.pattern, cache)?;
        let mut body = infer(&mut self.body, cache)?;
        unify_or_report(
            &pattern.typ,
            &result.typ,
            self.pattern.locate(),
            cache,
            TypeErrorKind::MatchPatternTypeDiffers,
        )?;
        unify_or_report(
            &body.typ,
            typ,
            self.body.locate(),
            cache,
            TypeErrorKind::MatchReturnTypeDiffers,
        )?;
        result.combine(&mut pattern, cache)?;
        result.combine(&mut body, cache)?;
        Some(())
    }
}

impl<A: Expression> Match<A> {
    /// Infers the match, up to where its patterns are compiled into a decision tree. That is to be
    /// done only if they are well-typed: if the second part of the result is true.
    pub fn infer_branches(&mut self, cache: &mut ModuleCache) -> (r: Option<(TypeResult, bool)>)
        ensures
            match match_inferred::<A>(old(self).tree(), old(cache)@) {
                None => r is None,
                Some(o) => r matches Some((result, sound)) && result@ == o.result
                    && final(self).tree() == o.tree && final(cache)@ == o.cache && sound == (
                o.cache.diagnostics.len() == old(cache)@.diagnostics.len()),
            },
    {
        let error_count: usize = cache.error_count();
        let ghost ps = branch_patterns(self.branches@);
        let ghost bs = branch_bodies(self.branches@);
        let n: usize = self.branches.len();
        let mut result = infer(&mut *self.expression, cache)?;
        let return_type = next_type_variable(cache);
        assert(bs.len() == n);
        if n == 0 {
            return Some((result.with_type(return_type), cache.error_count() == error_count));
        }
        let ghost start = result@;
        let ghost c1 = cache@;
        let ghost expression1 = self.expression.tree();
        proof {
            assert(self.branches@[0].pattern.tree() == ps[0]);
            assert(self.branches@[0].body.tree() == bs[0]);
        }
        let first = &mut self.branches[0];
        let done = first.infer_first(&mut result, cache);
        let return_type = match done {
            Some(typ) => typ,
            None => {
                proof {
                    lemma_infer_branches_none::<A>(1, n as nat, ps, bs, start, c1);
                }
                return None;
            },
        };
        let mut i: usize = 1;
        proof {
            assert(branch_patterns(self.branches@).take(1) =~= seq![
                self.branches@[0].pattern.tree(),
            ]);
            assert(branch_bodies(self.branches@).take(1) =~= seq![
                self.branches@[0].body.tree(),
            ]);
        }
        while i < n
            invariant
                1 <= i <= n,
                n == self.branches.len(),
                n == bs.len(),
                ps == branch_patterns(old(self).branches@),
                bs == branch_bodies(old(self).branches@),
                error_count == old(cache)@.diagnostics.len(),
                self.location == old(self).location,
                opt_ty(self.typ) == opt_ty(old(self).typ),
                self.expression.tree() == expression1,
                inferred::<A>(old(self).expression.tree(), old(cache)@) matches Some(o) && o.tree
                    == expression1 && o.result == start && c1 == o.cache.fresh(
                    o.cache.current_level,
                ),
                forall|j: int|
                    i <= j < n ==> (#[trigger] self.branches@[j]).pattern.tree() == ps[j]
                        && self.branches@[j].body.tree() == bs[j],
                infer_branches::<A>(i as nat, ps, bs, start, c1) == Some(
                    (Branches {
                        patterns: branch_patterns(self.branches@).take(i as int),
                        bodies: branch_bodies(self.branches@).take(i as int),
                        joint: result@,
                        typ: return_type@,
                        cache: cache@,
                    }),
                ),
            decreases n - i,
        {
            let ghost patterns = branch_patterns(self.branches@).take(i as int);
            let ghost bodies = branch_bodies(self.branches@).take(i as int);
            assert(self.branches@[i as int].pattern.tree() == ps[i as int]);
            let branch = &mut self.branches[i];
            let done = branch.infer_next(
                &return_type,
                &mut result,
                cache,
                Ghost(patterns),
                Ghost(bodies),
            );
            if done.is_none() {
                proof {
                    lemma_infer_branches_none::<A>((i + 1) as nat, n as nat, ps, bs, start, c1);
                }
                return None;
            }
            proof {
                assert(branch_patterns(self.branches@).take(i + 1) =~= patterns.push(
                    self.branches@[i as int].pattern.tree(),
                ));
                assert(branch_bodies(self.branches@).take(i + 1) =~= bodies.push(
                    self.branches@[i as int].body.tree(),
                ));
            }
            i += 1;
        }
        proof {
            assert(branch_patterns(self.branches@).take(i as int) =~= branch_patterns(
                self.branches@,
            ));
            assert(branch_bodies(self.branches@).take(i as int) =~= branch_bodies(
                self.branches@,
            ));
        }
        Some((result.with_type(return_type), cache.error_count() == error_count))
    }
}

/// An expression together with the handlers of the effects it may have.
#[derive(Debug)]
pub struct Handle<A> {
    pub expression: Box<A>,
    /// Each pattern is an effect, and its body is evaluated where that effect is performed.
    pub branches: Vec<Branch<A>>,
    /// The variable of each branch that stands for the rest of the computation.
    pub resumes: Vec<DefinitionInfoId>,
    pub effects_handled: Vec<Effect>,
    pub location: Location,
    pub typ: Option<Type>,
}

impl<A: Node> Node for Handle<A> {
    open spec fn tree(&self) -> Tree {
        Tree::Handle {
            expression: Box::new(self.expression.tree()),
            patterns: branch_patterns(self.branches@),
            branches: branch_bodies(self.branches@),
            resumes: self.resumes@,
            effects_handled: effect_tys(self.effects_handled@),
            location: self.location,
            typ: opt_ty(self.typ),
        }
    }
}

impl<A: Node> Locatable for Handle<A> {
    fn locate(&self) -> (r: Location) {
        self.location
    }
}

impl<A: Node> Typed for Handle<A> {
    fn get_type(&self) -> (r: Option<&Type>) {
        self.typ.as_ref()
    }

    fn set_type(&mut self, typ: Type) {
        self.typ = Some(typ);
    }
}

/// What inferring some branches of a handler comes to: their trees, the constraints and the
/// effects of the patterns, the results of the bodies, and the cache.
#[verifier::ext_equal]
pub struct Handlers {
    pub patterns: Seq<Tree>,
    pub bodies: Seq<Tree>,
    pub traits: Seq<Seq<Constraint>>,
    pub effects: Seq<EffectRow>,
    pub results: Seq<Typing>,
    pub cache: Cache,
}

/// What all branches of a handler share: the type of the handled expression, and what `resume`
/// closes over and what effects it has.
#[verifier::ext_equal]
pub struct Resumed {
    pub typ: Ty,
    pub environment: Ty,
    pub effects: Ty,
}

/// A further branch. Its `resume` is a function from what the pattern gives to the result of the
/// whole, and its body is of the type of the whole.
pub open spec fn next_handler<A: Inferable>(
    h: Handlers,
    pattern: Tree,
    body: Tree,
    resume: DefinitionInfoId,
    shared: Resumed,
) -> Option<Handlers> {
    match inferred::<A>(pattern, h.cache) {
        None => None,
        Some(o1) => if resume.0 < o1.cache.definition_infos.len()
            && o1.cache.definition_infos[resume.0 as int].typ is None {
            let resume_type = function_ty(
                seq![o1.result.typ],
                shared.typ,
                shared.environment,
                shared.effects,
            );
            match inferred::<A>(
                body,
                o1.cache.with_definition(
                    resume,
                    Def {
                        typ: Some(Scheme::Mono(resume_type)),
                        ..o1.cache.definition_infos[resume.0 as int]
                    },
                ),
            ) {
                None => None,
                Some(o2) => match after_unify(
                    o2.result.typ,
                    shared.typ,
                    o2.tree.location_of(),
                    Reason::HandleBranchMismatch,
                    o2.cache,
                ) {
                    None => None,
                    Some(cache) => Some(
                        Handlers {
                            patterns: h.patterns.push(o1.tree),
                            bodies: h.bodies.push(o2.tree),
                            traits: h.traits.push(o1.result.traits),
                            effects: h.effects.push(o1.result.effects),
                            results: h.results.push(o2.result),
                            cache,
                        },
                    ),
                },
            }
        } else {
            None
        },
    }
}

/// The first `n` branches.
pub open spec fn infer_handlers<A: Inferable>(
    n: nat,
    patterns: Seq<Tree>,
    bodies: Seq<Tree>,
    resumes: Seq<DefinitionInfoId>,
    shared: Resumed,
    c: Cache,
) -> Option<Handlers>
    decreases n,
{
    if n == 0 {
        Some(
            Handlers {
                patterns: Seq::empty(),
                bodies: Seq::empty(),
                traits: Seq::empty(),
                effects: Seq::empty(),
                results: Seq::empty(),
                cache: c,
            },
        )
    } else {
        match infer_handlers::<A>((n - 1) as nat, patterns, bodies, resumes, shared, c) {
            None => None,
            Some(h) => next_handler::<A>(
                h,
                patterns[n - 1],
                bodies[n - 1],
                resumes[n - 1],
                shared,
            ),
        }
    }
}

proof fn lemma_infer_handlers_none<A: Inferable>(
    n: nat,
    m: nat,
    patterns: Seq<Tree>,
    bodies: Seq<Tree>,
    resumes: Seq<DefinitionInfoId>,
    shared: Resumed,
    c: Cache,
)
    requires
        n <= m,
        infer_handlers::<A>(n, patterns, bodies, resumes, shared, c) is None,
    ensures
        infer_handlers::<A>(m, patterns, bodies, resumes, shared, c) is None,
    decreases m,
{
    if n < m {
        lemma_infer_handlers_none::<A>(
            n,
            (m - 1) as nat,
            patterns,
            bodies,
            resumes,
            shared,
            c,
        );
    }
}

/// A handler whose branches were inferred. Before it is finished, the free variables of the
/// branches are found: they make up the environment of `resume`.
#[derive(Debug)]
pub struct BegunHandle {
    pub result: TypeResult,
    pub environment: Type,
    pub resume_effects: Type,
    /// The constraints and the effects of each pattern.
    pub pattern_results: Vec<(TraitConstraints, EffectSet)>,
    pub branch_results: Vec<TypeResult>,
}

/// The constraints of the patterns.
pub open spec fn constraint_lists(v: Seq<(TraitConstraints, EffectSet)>) -> Seq<Seq<Constraint>> {
    Seq::new(v.len(), |i: int| constraints(v[i].0@))
}

/// The effects of the patterns.
pub open spec fn effect_rows(v: Seq<(TraitConstraints, EffectSet)>) -> Seq<EffectRow> {
    Seq::new(v.len(), |i: int| effect_row(v[i].1))
}

/// The models of results.
pub open spec fn typings(v: Seq<TypeResult>) -> Seq<Typing> {
    Seq::new(v.len(), |i: int| v[i]@)
}

/// Whether a handler, with the tree and the cache left behind, is what beginning to infer it comes
/// to.
pub open spec fn is_begun(
    r: Option<BegunHandle>,
    t: Tree,
    c: Cache,
    m: Option<(Tree, Typing, Resumed, Handlers)>,
) -> bool {
    match m {
        None => r is None,
        Some((t1, result, shared, h)) => {
            &&& r is Some
            &&& r->0.result@ == result
            &&& r->0.environment@ == shared.environment
            &&& r->0.resume_effects@ == shared.effects
            &&& constraint_lists(r->0.pattern_results@) == h.traits
            &&& effect_rows(r->0.pattern_results@) == h.effects
            &&& typings(r->0.branch_results@) == h.results
            &&& t == t1
            &&& c == h.cache
        },
    }
}

/// What beginning to infer a handler comes to. Branches without a `resume` are left out.
pub open spec fn handle_begun<A: Inferable>(t: Tree, c: Cache) -> Option<
    (Tree, Typing, Resumed, Handlers),
> {
    match t {
        Tree::Handle {
            expression,
            patterns,
            branches,
            resumes,
            effects_handled,
            location,
            typ,
        } => match inferred::<A>(*expression, c) {
            None => None,
            Some(o) => {
                let level = o.cache.current_level;
                let c1 = o.cache.fresh(level);
                let shared = Resumed {
                    typ: o.result.typ,
                    environment: Ty::Variable(o.cache.next_id()),
                    effects: Ty::Variable(c1.next_id()),
                };
                let n = least(branches.len(), resumes.len());
                match infer_handlers::<A>(
                    n,
                    patterns,
                    branches,
                    resumes,
                    shared,
                    c1.fresh(level),
                ) {
                    None => None,
                    Some(h) => Some(
                        (
                            Tree::Handle {
                                expression: Box::new(o.tree),
                                patterns: h.patterns + patterns.skip(n as int),
                                branches: h.bodies + branches.skip(n as int),
                                resumes,
                                effects_handled,
                                location,
                                typ,
                            },
                            o.result,
                            shared,
                            h,
                        ),
                    ),
                }
            },
        },
        _ => None,
    }
}

/// The row with the effects of the first `n` rows added.
pub open spec fn effects_added(n: nat, rows: Seq<EffectRow>, row: EffectRow, c: Cache) -> Option<
    (EffectRow, Cache),
>
    decreases n,
{
    if n == 0 {
        Some((row, c))
    } else {
        match effects_added((n - 1) as nat, rows, row, c) {
            None => None,
            Some((row1, c1)) => combined(row1, rows[n - 1], c1),
        }
    }
}

/// The result with the effects of the first `n` patterns taken away, and their constraints added,
/// and the effects that this handled.
pub open spec fn effects_handled_by(
    n: nat,
    traits: Seq<Seq<Constraint>>,
    rows: Seq<EffectRow>,
    result: Typing,
    c: Cache,
) -> Option<(Typing, Seq<Ty>)>
    decreases n,
{
    if n == 0 {
        Some((result, Seq::empty()))
    } else {
        match effects_handled_by((n - 1) as nat, traits, rows, result, c) {
            None => None,
            Some((result1, handled)) => match without_handled(
                result1.effects,
                rows[n - 1],
                handled,
                c,
            ) {
                None => None,
                Some((effects, handled1)) => Some(
                    (
                        Typing {
                            typ: result1.typ,
                            traits: result1.traits + traits[n - 1],
                            effects,
                        },
                        handled1,
                    ),
                ),
            },
        }
    }
}

/// The result with the first `n` of the others joined to it.
pub open spec fn results_joined(n: nat, others: Seq<Typing>, result: Typing, c: Cache) -> Option<
    (Typing, Cache),
>
    decreases n,
{
    if n == 0 {
        Some((result, c))
    } else {
        match results_joined((n - 1) as nat, others, result, c) {
            None => None,
            Some((result1, c1)) => combined_results(result1, others[n - 1], c1),
        }
    }
}

/// What finishing a handler comes to: the result, the effects handled and the cache. The effects of
/// the patterns are taken away from those of the handled expression, to which they are added first
/// in case it was not known to have them. What is left are the effects of `resume`, and those of
/// the bodies come on top.
pub open spec fn handle_finished(
    result: Typing,
    environment: Ty,
    resume_effects: Ty,
    h: Handlers,
    free: Seq<Ty>,
    location: Location,
    c: Cache,
) -> Option<(Typing, Seq<Ty>, Cache)> {
    match after_unify(
        environment,
        tuple_ty(seq![continuation_ty()] + free),
        location,
        Reason::ResumeEnvironmentMismatch,
        c,
    ) {
        None => None,
        Some(c1) => match effects_added(h.effects.len(), h.effects, result.effects, c1) {
            None => None,
            Some((row, c2)) => match effects_handled_by(
                h.effects.len(),
                h.traits,
                h.effects,
                Typing { effects: row, ..result },
                c2,
            ) {
                None => None,
                Some((rest, handled)) => match after_unify(
                    resume_effects,
                    Ty::Effects(rest.effects.0, rest.effects.1),
                    location,
                    Reason::ResumeEffectsMismatch,
                    c2,
                ) {
                    None => None,
                    Some(c3) => match results_joined(h.results.len(), h.results, rest, c3) {
                        None => None,
                        Some((all, c4)) => Some((all, handled, c4)),
                    },
                },
            },
        },
    }
}

impl<A: Expression> Branch<A> {
    /// Infers a branch of a handler.
    fn infer_handler(
        &mut self,
        resume: DefinitionInfoId,
        typ: &Type,
        environment: &Type,
        effects: &Type,
        cache: &mut ModuleCache,
        Ghost(h): Ghost<Handlers>,
    ) -> (r: Option<(TraitConstraints, EffectSet, TypeResult)>)
        requires
            h.cache == old(cache)@,
        ensures
            match next_handler::<A>(
                h,
                old(self).pattern.tree(),
                old(self).body.tree(),
                resume,
                (Resumed { typ: typ@, environment: environment@, effects: effects@ }),
            ) {
                None => r is None,
                Some(h1) => r matches Some((traits, row, result)) && h1 == (Handlers {
                    patterns: h.patterns.push(final(self).pattern.tree()),
                    bodies: h.bodies.push(final(self).body.tree()),
                    traits: h.traits.push(constraints(traits@)),
                    effects: h.effects.push(effect_row(row)),
                    results: h.results.push(result@),
                    cache: final(cache)@,
                }),
            },
    {
        let pattern = infer(&mut self.pattern, cache)?;
        if resume.0 >= cache.definition_infos.len() {
            return None;
        }
        assert(cache@.definition_infos[resume.0 as int]
            == cache.definition_infos@[resume.0 as int]@);
        if cache.definition_infos[resume.0].typ.is_some() {
            return None;
        }
        let ghost given = pattern.typ@;
        let parameters = vec![pattern.typ];
        assert(tys(parameters@) =~= seq![given]);
        let return_type = typ.clone();
        let own_environment = environment.clone();
        let own_effects = effects.clone();
        let resume_type = Type::Function(
            FunctionType {
                parameters,
                return_type: Box::new(return_type),
                environment: Box::new(own_environment),
                effects: Box::new(own_effects),
                has_varargs: false,
            },
        );
        assert(resume_type@ == function_ty(seq![given], typ@, environment@, effects@));
        set_definition_type(resume, GeneralizedType::MonoType(resume_type), cache);
        let body = infer(&mut self.body, cache)?;
        unify_or_report(
            &body.typ,
            typ,
            self.body.locate(),
            cache,
            TypeErrorKind::HandleBranchMismatch,
        )?;
        Some((pattern.traits, pattern.effects, body))
    }
}

impl<A: Expression> Handle<A> {
    /// Infers the handled expression and all branches, up to where the free variables of the
    /// branches are found.
    pub fn begin(&mut self, cache: &mut ModuleCache) -> (r: Option<BegunHandle>)
        ensures
            is_begun(
                r,
                final(self).tree(),
                final(cache)@,
                handle_begun::<A>(old(self).tree(), old(cache)@),
            ),
    {
        let ghost ps = branch_patterns(self.branches@);
        let ghost bs = branch_bodies(self.branches@);
        let result = infer(&mut *self.expression, cache)?;
        let ghost o = inferred::<A>(old(self).expression.tree(), old(cache)@)->0;
        let environment = next_type_variable(cache);
        let resume_effects = next_type_variable(cache);
        let ghost shared = Resumed {
            typ: result.typ@,
            environment: environment@,
            effects: resume_effects@,
        };
        let ghost c1 = cache@;
        let ghost expression1 = self.expression.tree();
        let mut pattern_results: Vec<(TraitConstraints, EffectSet)> = Vec::new();
        let mut branch_results: Vec<TypeResult> = Vec::new();
        let mut i: usize = 0;
        let ghost n = least(bs.len(), self.resumes@.len());
        proof {
            assert(branch_patterns(self.branches@).take(0) =~= Seq::empty());
            assert(branch_bodies(self.branches@).take(0) =~= Seq::empty());
            assert(constraint_lists(pattern_results@) =~= Seq::empty());
            assert(effect_rows(pattern_results@) =~= Seq::empty());
            assert(typings(branch_results@) =~= Seq::empty());
        }
        while i < self.branches.len() && i < self.resumes.len()
            invariant
                i <= n,
                n == least(bs.len(), self.resumes@.len()),
                self.branches.len() == bs.len(),
                ps.len() == bs.len(),
                ps == branch_patterns(old(self).branches@),
                bs == branch_bodies(old(self).branches@),
                self.resumes@ == old(self).resumes@,
                self.location == old(self).location,
                opt_ty(self.typ) == opt_ty(old(self).typ),
                effect_tys(self.effects_handled@) == effect_tys(old(self).effects_handled@),
                self.expression.tree() == expression1,
                inferred::<A>(old(self).expression.tree(), old(cache)@) == Some(o),
                o.tree == expression1,
                o.result == result@,
                shared == (Resumed {
                    typ: result.typ@,
                    environment: environment@,
                    effects: resume_effects@,
                }),
                environment@ == Ty::Variable(o.cache.next_id()),
                resume_effects@ == Ty::Variable(o.cache.fresh(o.cache.current_level).next_id()),
                c1 == o.cache.fresh(o.cache.current_level).fresh(o.cache.current_level),
                forall|j: int|
                    i <= j < self.branches.len() ==> (
                    #[trigger] self.branches@[j]).pattern.tree() == ps[j]
                        && self.branches@[j].body.tree() == bs[j],
                infer_handlers::<A>(i as nat, ps, bs, self.resumes@, shared, c1) == Some(
                    (Handlers {
                        patterns: branch_patterns(self.branches@).take(i as int),
                        bodies: branch_bodies(self.branches@).take(i as int),
                        traits: constraint_lists(pattern_results@),
                        effects: effect_rows(pattern_results@),
                        results: typings(branch_results@),
                        cache: cache@,
                    }),
                ),
            decreases self.branches.len() - i,
        {
            let ghost h = Handlers {
                patterns: branch_patterns(self.branches@).take(i as int),
                bodies: branch_bodies(self.branches@).take(i as int),
                traits: constraint_lists(pattern_results@),
                effects: effect_rows(pattern_results@),
                results: typings(branch_results@),
                cache: cache@,
            };
            assert(self.branches@[i as int].pattern.tree() == ps[i as int]);
            let resume = self.resumes[i];
            let branch = &mut self.branches[i];
            let done = branch.infer_handler(
                resume,
                &result.typ,
                &environment,
                &resume_effects,
                cache,
                Ghost(h),
            );
            match done {
                None => {
                    proof {
                        lemma_infer_handlers_none::<A>(
                            (i + 1) as nat,
                            n,
                            ps,
                            bs,
                            self.resumes@,
                            shared,
                            c1,
                        );
                    }
                    return None;
                },
                Some((traits, effects, body)) => {
                    let ghost parts = (constraints(traits@), effect_row(effects), body@);
                    pattern_results.push((traits, effects));
                    branch_results.push(body);
                    proof {
                        assert(constraint_lists(pattern_results@) =~= h.traits.push(parts.0));
                        assert(effect_rows(pattern_results@) =~= h.effects.push(parts.1));
                        assert(typings(branch_results@) =~= h.results.push(parts.2));
                        assert(branch_patterns(self.branches@).take(i + 1) =~= h.patterns.push(
                            self.branches@[i as int].pattern.tree(),
                        ));
                        assert(branch_bodies(self.branches@).take(i + 1) =~= h.bodies.push(
                            self.branches@[i as int].body.tree(),
                        ));
                    }
                },
            }
            i += 1;
        }
        proof {
            assert(i == n);
            let now = branch_patterns(self.branches@);
            assert(now =~= now.take(i as int) + ps.skip(i as int));
            let bodies = branch_bodies(self.branches@);
            assert(bodies =~= bodies.take(i as int) + bs.skip(i as int));
        }
        Some(
            BegunHandle {
                result,
                environment,
                resume_effects,
                pattern_results,
                branch_results,
            },
        )
    }

    /// Finishes the handler, with the free variables of its branches and their types, ordered by
    /// their definitions.
    pub fn finish(
        &mut self,
        begun: BegunHandle,
        free_variables: Vec<(DefinitionInfoId, Type)>,
        cache: &mut ModuleCache,
    ) -> (r: Option<TypeResult>)
        ensures
            match handle_finished(
                begun.result@,
                begun.environment@,
                begun.resume_effects@,
                handlers_of(begun, old(cache)@),
                free_tys(free_variables@),
                old(self).location,
                old(cache)@,
            ) {
                None => r is None,
                Some((result, handled, c)) => r is Some && r->0@ == result && final(cache)@ == c
                    && final(self).tree() == with_handled(old(self).tree(), handled),
            },
    {
        let actual = resume_environment_type(free_variables);
        unify_or_report(
            &begun.environment,
            &actual,
            self.location,
            cache,
            TypeErrorKind::ResumeEnvironmentMismatch,
        )?;
        let mut result = begun.result;
        add_effects(&mut result.effects, &begun.pattern_results, cache)?;
        let handled = handle_effects(&mut result, &begun.pattern_results, cache)?;
        let ghost hs = effect_tys(handled@);
        self.effects_handled = handled;
        let rest = Type::Effects(result.effects.clone());
        assert(rest@ == Ty::Effects(result@.effects.0, result@.effects.1));
        unify_or_report(
            &begun.resume_effects,
            &rest,
            self.location,
            cache,
            TypeErrorKind::ResumeEffectsMismatch,
        )?;
        // The effects of the bodies come last: they are not handled here.
        join_results(&mut result, begun.branch_results, cache)?;
        Some(result)
    }
}

/// What the branches of a begun handler came to.
pub open spec fn handlers_of(begun: BegunHandle, c: Cache) -> Handlers {
    Handlers {
        patterns: Seq::empty(),
        bodies: Seq::empty(),
        traits: constraint_lists(begun.pattern_results@),
        effects: effect_rows(begun.pattern_results@),
        results: typings(begun.branch_results@),
        cache: c,
    }
}

/// The handler with the effects noted that it handles.
pub open spec fn with_handled(t: Tree, handled: Seq<Ty>) -> Tree {
    match t {
        Tree::Handle { expression, patterns, branches, resumes, location, typ, .. } => {
            Tree::Handle {
                expression,
                patterns,
                branches,
                resumes,
                effects_handled: handled,
                location,
                typ,
            }
        },
        _ => t,
    }
}

proof fn lemma_effects_added_none(n: nat, m: nat, rows: Seq<EffectRow>, row: EffectRow, c: Cache)
    requires
        n <= m,
        effects_added(n, rows, row, c) is None,
    ensures
        effects_added(m, rows, row, c) is None,
    decreases m,
{
    if n < m {
        lemma_effects_added_none(n, (m - 1) as nat, rows, row, c);
    }
}

/// Adds the effects of all patterns.
fn add_effects(
    set: &mut EffectSet,
    patterns: &Vec<(TraitConstraints, EffectSet)>,
    cache: &mut ModuleCache,
) -> (r: Option<()>)
    ensures
        match effects_added(
            patterns@.len(),
            effect_rows(patterns@),
            effect_row(*old(set)),
            old(cache)@,
        ) {
            None => r is None,
            Some((row, c)) => r is Some && effect_row(*final(set)) == row && final(cache)@ == c,
        },
{
    let ghost rows = effect_rows(patterns@);
    let ghost row = effect_row(*set);
    let ghost c = cache@;
    let mut i: usize = 0;
    while i < patterns.len()
        invariant
            i <= patterns.len(),
            rows == effect_rows(patterns@),
            row == effect_row(*old(set)),
            c == old(cache)@,
            effects_added(i as nat, rows, row, c) == Some((effect_row(*set), cache@)),
        decreases patterns.len() - i,
    {
        assert(rows[i as int] == effect_row(patterns@[i as int].1));
        let done = set.combine(&patterns[i].1, cache);
        if done.is_none() {
            proof {
                lemma_effects_added_none((i + 1) as nat, rows.len(), rows, row, c);
            }
            return None;
        }
        i += 1;
    }
    Some(())
}

proof fn lemma_effects_handled_none(
    n: nat,
    m: nat,
    traits: Seq<Seq<Constraint>>,
    rows: Seq<EffectRow>,
    result: Typing,
    c: Cache,
)
    requires
        n <= m,
        effects_handled_by(n, traits, rows, result, c) is None,
    ensures
        effects_handled_by(m, traits, rows, result, c) is None,
    decreases m,
{
    if n < m {
        lemma_effects_handled_none(n, (m - 1) as nat, traits, rows, result, c);
    }
}

/// Takes the effects of all patterns away, and adds their constraints. Gives the effects handled.
fn handle_effects(
    result: &mut TypeResult,
    patterns: &Vec<(TraitConstraints, EffectSet)>,
    cache: &ModuleCache,
) -> (r: Option<Vec<Effect>>)
    ensures
        match effects_handled_by(
            patterns@.len(),
            constraint_lists(patterns@),
            effect_rows(patterns@),
            old(result)@,
            cache@,
        ) {
            None => r is None,
            Some((rest, handled)) => r is Some && final(result)@ == rest && effect_tys(r->0@)
                == handled,
        },
{
    let ghost lists = constraint_lists(patterns@);
    let ghost rows = effect_rows(patterns@);
    let ghost start = result@;
    let mut handled: Vec<Effect> = Vec::new();
    assert(effect_tys(handled@) =~= Seq::empty());
    let mut i: usize = 0;
    while i < patterns.len()
        invariant
            i <= patterns.len(),
            lists == constraint_lists(patterns@),
            rows == effect_rows(patterns@),
            start == old(result)@,
            effects_handled_by(i as nat, lists, rows, start, cache@) == Some(
                (result@, effect_tys(handled@)),
            ),
        decreases patterns.len() - i,
    {
        proof {
            assert(lists[i as int] == constraints(patterns@[i as int].0@));
            assert(rows[i as int] == effect_row(patterns@[i as int].1));
        }
        let own = clone_constraints(&patterns[i].0);
        let done = result.handle_effects_from(own, &patterns[i].1, &mut handled, cache);
        if done.is_none() {
            proof {
                lemma_effects_handled_none(
                    (i + 1) as nat,
                    rows.len(),
                    lists,
                    rows,
                    start,
                    cache@,
                );
            }
            return None;
        }
        i += 1;
    }
    Some(handled)
}

/// Clones of the constraints.
fn clone_constraints(traits: &TraitConstraints) -> (r: TraitConstraints)
    ensures
        constraints(r@) == constraints(traits@),
{
    let mut r: TraitConstraints = Vec::new();
    let mut i: usize = 0;
    while i < traits.len()
        invariant
            i <= traits.len(),
            r.len() == i,
            forall|j: int| 0 <= j < i ==> (#[trigger] r@[j])@ == traits@[j]@,
        decreases traits.len() - i,
    {
        r.push(traits[i].clone());
        i += 1;
    }
    assert(constraints(r@) =~= constraints(traits@));
    r
}

proof fn lemma_results_joined_none(n: nat, m: nat, others: Seq<Typing>, result: Typing, c: Cache)
    requires
        n <= m,
        results_joined(n, others, result, c) is None,
    ensures
        results_joined(m, others, result, c) is None,
    decreases m,
{
    if n < m {
        lemma_results_joined_none(n, (m - 1) as nat, others, result, c);
    }
}

fn join_results(
    result: &mut TypeResult,
    others: Vec<TypeResult>,
    cache: &mut ModuleCache,
) -> (r: Option<()>)
    ensures
        match results_joined(others@.len(), typings(others@), old(result)@, old(cache)@) {
            None => r is None,
            Some((all, c)) => r is Some && final(result)@ == all && final(cache)@ == c,
        },
{
    let ghost ts = typings(others@);
    let ghost start = result@;
    let ghost c = cache@;
    let mut rest = others;
    let n: usize = rest.len();
    let mut i: usize = 0;
    while i < n
        invariant
            i <= n,
            n == ts.len(),
            ts == typings(others@),
            rest.len() == n,
            start == old(result)@,
            c == old(cache)@,
            forall|j: int| i <= j < n ==> (#[trigger] rest@[j])@ == ts[j],
            results_joined(i as nat, ts, start, c) == Some((result@, cache@)),
        decreases n - i,
    {
        assert(rest@[i as int]@ == ts[i as int]);
        let branch = &mut rest[i];
        let done = result.combine(branch, cache);
        if done.is_none() {
            proof {
                lemma_results_joined_none((i + 1) as nat, ts.len(), ts, start, c);
            }
            return None;
        }
        i += 1;
    }
    Some(())
}

} // verus!
