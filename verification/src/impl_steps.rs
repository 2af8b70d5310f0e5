//! The inference of an impl, step by step: what comes next, after each thing that had to be done
//! between two steps.

use crate::bindings::{types_of, TypeBindings};
use crate::cache::{
    constraints, signatures, Cache, Constraint, ConstraintSignature, ImplInfoId, ModuleCache,
    Signature, TraitConstraint, TraitConstraints, TraitInfoId,
};
use crate::impls::{
    bind_irrefutable_pattern_in_impl, check_impl_propagated_traits, pattern_binding_step,
    pattern_check_step, AfterCheck, BindingTodo, CheckTodo, ImplBinding, ImplCheck, PatternBinding,
    PatternCheck,
};
use crate::patterns::{opt_ty, visits_of, Pat};
use crate::programs::{impl_bindings, TraitImpl};
use crate::results::{result_of, unit_ty, TypeResult, Typing};
use crate::tree::Node;
use crate::types::{tys, Ty, Type};
use crate::values::Definition;
use vstd::prelude::*;

verus! {

/// What is being done with a definition of an impl.
#[derive(Debug)]
pub enum ImplPhase {
    /// The variables that the pattern declares get their types from the trait.
    Binding { binding: ImplBinding },
    /// The definition is being inferred.
    Inferring,
    /// The traits that it uses are checked. Those left over from its inference come after.
    Checking { check: ImplCheck, given: Vec<ConstraintSignature>, left: TraitConstraints },
    /// No trait may be propagated outside of the impl: those left over are resolved.
    Forcing { left: TraitConstraints },
}

/// How far the inference of an impl has come.
#[derive(Debug)]
pub struct ImplProgress {
    pub trait_id: TraitInfoId,
    /// The variables of the trait and what they are bound to, for all definitions of the impl.
    pub bindings: TypeBindings,
    /// How many definitions were begun with.
    pub next: usize,
    pub phase: ImplPhase,
}

/// What has to be done before the next step.
#[derive(Debug)]
pub enum ImplAction {
    InferTrait(TraitInfoId),
    /// Infer the definition in that place.
    InferDefinition(usize),
    Resolve(TraitConstraint),
    /// There is nothing left to do.
    Done(TypeResult),
}

/// What was done since the last step.
#[derive(Debug)]
pub enum ImplEvent {
    /// The inference begins, the trait was inferred, or the constraint was resolved.
    Resumed,
    /// The definition was inferred, with these constraints left over.
    Inferred(TraitConstraints),
}

/// The model of an `ImplPhase`.
#[verifier::ext_equal]
pub enum Phase {
    Binding { binding: PatternBinding },
    Inferring,
    Checking { check: PatternCheck, given: Seq<Signature>, left: Seq<Constraint> },
    Forcing { left: Seq<Constraint> },
}

/// The model of an `ImplProgress`.
#[verifier::ext_equal]
pub struct Progress {
    pub trait_id: TraitInfoId,
    pub types: Map<usize, Ty>,
    pub next: int,
    pub phase: Phase,
}

/// The model of an `ImplAction`.
#[verifier::ext_equal]
pub enum Action {
    InferTrait(TraitInfoId),
    InferDefinition(int),
    Resolve(Constraint),
    Done(Typing),
}

/// The model of an `ImplEvent`.
#[verifier::ext_equal]
pub enum Event {
    Resumed,
    Inferred(Seq<Constraint>),
}

impl View for ImplPhase {
    type V = Phase;

    open spec fn view(&self) -> Phase {
        match self {
            ImplPhase::Binding { binding } => Phase::Binding { binding: binding@ },
            ImplPhase::Inferring => Phase::Inferring,
            ImplPhase::Checking { check, given, left } => Phase::Checking {
                check: check@,
                given: signatures(given@),
                left: constraints(left@),
            },
            ImplPhase::Forcing { left } => Phase::Forcing { left: constraints(left@) },
        }
    }
}

impl View for ImplProgress {
    type V = Progress;

    open spec fn view(&self) -> Progress {
        Progress {
            trait_id: self.trait_id,
            types: types_of(self.bindings@),
            next: self.next as int,
            phase: self.phase@,
        }
    }
}

impl View for ImplAction {
    type V = Action;

    open spec fn view(&self) -> Action {
        match self {
            ImplAction::InferTrait(id) => Action::InferTrait(*id),
            ImplAction::InferDefinition(i) => Action::InferDefinition(*i as int),
            ImplAction::Resolve(constraint) => Action::Resolve(constraint@),
            ImplAction::Done(result) => Action::Done(result@),
        }
    }
}

impl View for ImplEvent {
    type V = Event;

    open spec fn view(&self) -> Event {
        match self {
            ImplEvent::Resumed => Event::Resumed,
            ImplEvent::Inferred(traits) => Event::Inferred(constraints(traits@)),
        }
    }
}

/// The patterns of the definitions.
pub open spec fn patterns_of<A>(definitions: Seq<Definition<A>>) -> Seq<Pat> {
    Seq::new(definitions.len(), |i: int| definitions[i].pattern@)
}

/// The constraints that are given for an impl.
pub open spec fn given_of(impl_id: Option<ImplInfoId>, c: Cache) -> Option<Seq<Signature>> {
    match impl_id {
        Some(id) => if id.0 < c.given.len() {
            Some(c.given[id.0 as int])
        } else {
            None
        },
        None => None,
    }
}

/// How the inference of an impl begins: with none of its definitions begun with, and the variables
/// of the trait bound to the arguments of the impl.
pub open spec fn impl_begun(
    trait_info: Option<TraitInfoId>,
    types: Seq<Ty>,
    c: Cache,
) -> Option<Progress> {
    match (trait_info, impl_bindings(trait_info, types, c)) {
        (Some(trait_id), Some(bound)) => Some(
            Progress {
                trait_id,
                types: bound,
                next: 0,
                phase: Phase::Forcing { left: Seq::empty() },
            },
        ),
        _ => None,
    }
}

/// How much of a phase lies ahead.
pub open spec fn phase_rank(phase: Phase) -> int {
    match phase {
        Phase::Binding { .. } => 3,
        Phase::Inferring => 2,
        Phase::Checking { .. } => 1,
        Phase::Forcing { .. } => 0,
    }
}

/// What the inference of an impl comes to from here on, up to what has to be done next. For each
/// definition in turn: the variables of its pattern are bound to the types of the trait's members,
/// for which the trait has to be inferred; the definition is inferred; each trait that it uses and
/// that is not given is resolved; and so is each one left over. `None` where that is not defined.
pub open spec fn impl_goes_on(
    p: Progress,
    patterns: Seq<Pat>,
    c: Cache,
) -> Option<(Progress, Cache, Action)>
    decreases patterns.len() - p.next, phase_rank(p.phase),
{
    match p.phase {
        Phase::Binding { binding } => match pattern_binding_step(binding, p.types, c) {
            None => None,
            Some((binding1, types, c1, BindingTodo::InferTrait)) => Some(
                (
                    Progress { types, phase: Phase::Binding { binding: binding1 }, ..p },
                    c1,
                    Action::InferTrait(p.trait_id),
                ),
            ),
            Some((_, types, c1, BindingTodo::Done)) => if p.next > 0 {
                Some(
                    (
                        Progress { types, phase: Phase::Inferring, ..p },
                        c1,
                        Action::InferDefinition(p.next - 1),
                    ),
                )
            } else {
                None
            },
        },
        Phase::Inferring => None,
        Phase::Checking { check, given, left } => match pattern_check_step(check, given, c) {
            None => None,
            Some((check1, c1, todo)) => {
                let checking = Progress {
                    phase: Phase::Checking { check: check1, given, left },
                    ..p
                };
                match todo {
                    AfterCheck::InferTrait => Some((checking, c1, Action::InferTrait(p.trait_id))),
                    AfterCheck::Resolve(constraint) => Some(
                        (checking, c1, Action::Resolve(constraint)),
                    ),
                    AfterCheck::Done => impl_goes_on(
                        Progress { phase: Phase::Forcing { left }, ..p },
                        patterns,
                        c1,
                    ),
                }
            },
        },
        Phase::Forcing { left } => if left.len() > 0 {
            Some(
                (
                    Progress { phase: Phase::Forcing { left: left.skip(1) }, ..p },
                    c,
                    Action::Resolve(left[0]),
                ),
            )
        } else if p.next >= patterns.len() {
            let (result, c1) = result_of(unit_ty(), Seq::empty(), c);
            Some((p, c1, Action::Done(result)))
        } else {
            impl_goes_on(
                Progress {
                    next: p.next + 1,
                    phase: Phase::Binding {
                        binding: PatternBinding {
                            trait_id: p.trait_id,
                            found: visits_of(patterns[p.next]),
                            next: 0,
                        },
                    },
                    ..p
                },
                patterns,
                c,
            )
        },
    }
}

/// What a step of the inference of an impl comes to: how far it has come then, the cache, and what
/// has to be done before the next step. `None` where the event is not one to wait for.
pub open spec fn impl_step(
    p: Progress,
    event: Event,
    patterns: Seq<Pat>,
    impl_id: Option<ImplInfoId>,
    c: Cache,
) -> Option<(Progress, Cache, Action)> {
    match (event, p.phase) {
        (Event::Inferred(left), Phase::Inferring) => if 0 < p.next <= patterns.len() {
            match given_of(impl_id, c) {
                None => None,
                Some(given) => {
                    let check = PatternCheck {
                        trait_id: p.trait_id,
                        found: visits_of(patterns[p.next - 1]),
                        next: 0,
                        current: None,
                    };
                    impl_goes_on(
                        Progress { phase: Phase::Checking { check, given, left }, ..p },
                        patterns,
                        c,
                    )
                },
            }
        } else {
            None
        },
        (Event::Inferred(_), _) => None,
        (Event::Resumed, _) => impl_goes_on(p, patterns, c),
    }
}

/// How the inference of an impl begins: it is over at once where the impl has a type already.
#[derive(Debug)]
pub enum BegunImpl {
    Done(TypeResult),
    Running(ImplProgress),
}

/// Whether an impl with the given type begins as the model says.
pub open spec fn is_begun_impl(
    r: Option<BegunImpl>,
    after: Cache,
    typ: Option<Ty>,
    progress: Option<Progress>,
    c: Cache,
) -> bool {
    match (typ, progress) {
        (Some(_), _) => r matches Some(BegunImpl::Done(result)) && (result@, after) == result_of(
            unit_ty(),
            Seq::empty(),
            c,
        ),
        (None, None) => r is None,
        (None, Some(p)) => r matches Some(BegunImpl::Running(running)) && running@ == p && after
            == c,
    }
}

/// Whether a step, and how far the inference has come, are those of the model.
pub open spec fn is_impl_step(
    r: Option<ImplAction>,
    p: Progress,
    c: Cache,
    m: Option<(Progress, Cache, Action)>,
) -> bool {
    match m {
        None => r is None,
        Some((p1, c1, action)) => r is Some && r->0@ == action && p == p1 && c == c1,
    }
}

impl<A: Node> TraitImpl<A> {
    /// Begins the inference of the impl. `None` if its trait is not known.
    pub fn begin(&self, cache: &mut ModuleCache) -> (r: Option<BegunImpl>)
        ensures
            is_begun_impl(
                r,
                final(cache)@,
                opt_ty(self.typ),
                impl_begun(self.trait_info, tys(self.trait_arg_types@), old(cache)@),
                old(cache)@,
            ),
    {
        if self.typ.is_some() {
            return Some(BegunImpl::Done(TypeResult::of(Type::unit(), cache)));
        }
        let bindings = self.bindings(cache)?;
        let trait_id = self.trait_info?;
        let left: TraitConstraints = Vec::new();
        assert(constraints(left@) =~= Seq::empty());
        Some(
            BegunImpl::Running(
                ImplProgress { trait_id, bindings, next: 0, phase: ImplPhase::Forcing { left } },
            ),
        )
    }

    /// Goes on with the inference of the impl, after what is told of by the event, up to what has
    /// to be done next.
    pub fn step(
        &self,
        progress: &mut ImplProgress,
        event: ImplEvent,
        cache: &mut ModuleCache,
    ) -> (r: Option<ImplAction>)
        ensures
            is_impl_step(
                r,
                final(progress)@,
                final(cache)@,
                impl_step(
                    old(progress)@,
                    event@,
                    patterns_of(self.definitions@),
                    self.impl_id,
                    old(cache)@,
                ),
            ),
    {
        let ghost patterns = patterns_of(self.definitions@);
        match event {
            ImplEvent::Resumed => {},
            ImplEvent::Inferred(left) => {
                match &progress.phase {
                    ImplPhase::Inferring => {},
                    _ => {
                        return None;
                    },
                }
                if progress.next == 0 || progress.next > self.definitions.len() {
                    return None;
                }
                let given = self.given(cache)?;
                let pattern = &self.definitions[progress.next - 1].pattern;
                let check = check_impl_propagated_traits(pattern, progress.trait_id);
                progress.phase = ImplPhase::Checking { check, given, left };
            },
        }
        self.go_on(progress, cache)
    }

    fn go_on(&self, progress: &mut ImplProgress, cache: &mut ModuleCache) -> (r: Option<ImplAction>)
        ensures
            is_impl_step(
                r,
                final(progress)@,
                final(cache)@,
                impl_goes_on(old(progress)@, patterns_of(self.definitions@), old(cache)@),
            ),
    {
        let ghost patterns = patterns_of(self.definitions@);
        let ghost p0 = progress@;
        let ghost c0 = cache@;
        loop
            invariant
                patterns == patterns_of(self.definitions@),
                p0 == old(progress)@,
                c0 == old(cache)@,
                impl_goes_on(p0, patterns, c0) == impl_goes_on(progress@, patterns, cache@),
            decreases patterns.len() - progress@.next, phase_rank(progress@.phase),
        {
            let ghost p = progress@;
            let ghost c = cache@;
            let mut phase = ImplPhase::Inferring;
            std::mem::swap(&mut phase, &mut progress.phase);
            match phase {
                ImplPhase::Binding { binding } => {
                    let mut binding = binding;
                    match binding.step(&mut progress.bindings, cache)? {
                        BindingTodo::InferTrait => {
                            progress.phase = ImplPhase::Binding { binding };
                            return Some(ImplAction::InferTrait(progress.trait_id));
                        },
                        BindingTodo::Done => {
                            if progress.next == 0 {
                                return None;
                            }
                            return Some(ImplAction::InferDefinition(progress.next - 1));
                        },
                    }
                },
                ImplPhase::Inferring => {
                    return None;
                },
                ImplPhase::Checking { check, given, left } => {
                    let mut check = check;
                    match check.step(&given, cache)? {
                        CheckTodo::InferTrait => {
                            progress.phase = ImplPhase::Checking { check, given, left };
                            return Some(ImplAction::InferTrait(progress.trait_id));
                        },
                        CheckTodo::Resolve(constraint) => {
                            progress.phase = ImplPhase::Checking { check, given, left };
                            return Some(ImplAction::Resolve(constraint));
                        },
                        CheckTodo::Done => {
                            progress.phase = ImplPhase::Forcing { left };
                        },
                    }
                },
                ImplPhase::Forcing { left } => {
                    let mut left = left;
                    let ghost before = constraints(left@);
                    if left.len() > 0 {
                        let constraint = left.remove(0);
                        assert(constraint@ == before[0]);
                        assert(constraints(left@) =~= before.skip(1));
                        progress.phase = ImplPhase::Forcing { left };
                        return Some(ImplAction::Resolve(constraint));
                    }
                    if progress.next >= self.definitions.len() {
                        progress.phase = ImplPhase::Forcing { left };
                        assert(progress@ =~= p);
                        return Some(ImplAction::Done(TypeResult::of(Type::unit(), cache)));
                    }
                    let pattern = &self.definitions[progress.next].pattern;
                    let binding = bind_irrefutable_pattern_in_impl(pattern, progress.trait_id);
                    progress.phase = ImplPhase::Binding { binding };
                    progress.next = progress.next + 1;
                },
            }
        }
    }
}

} // verus!
