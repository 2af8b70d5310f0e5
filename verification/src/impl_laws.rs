//! What the inference of an impl keeps from step to step, and in what order it goes on.

use crate::bindings::Solution;
use crate::cache::{Cache, Def, ImplInfoId, Report, Required, Scheme, Signature, TraitInfoId};
use crate::impl_steps::{
    given_of, impl_goes_on, impl_step, phase_rank, Action, Event, Phase, Progress,
};
use crate::impls::{
    check_begun, check_step, fits, matching, member_of, pattern_binding_step, pattern_check_step,
    required_signatures, trait_is_missing, visit_bound, Check, PatternBinding, PatternCheck,
};
use crate::patterns::{visits_of, Pat, Visit};
use crate::progress::{
    goes_on, law_goes_on_further, lemma_definition_goes_on, lemma_fresh_goes_on,
    lemma_report_goes_on,
};
use crate::resolve::MAX_DEPTH;
use crate::subst::replace;
use crate::subst_laws::{law_replace_is_fresh, lemma_replace_grows};
use crate::types::Ty;
use crate::unify::State;
use crate::unify_laws::lemma_unify_seq_keeps;
use vstd::prelude::*;

verus! {

proof fn lemma_replace_goes_on(t: Ty, types: Map<usize, Ty>, c: Cache)
    ensures
        replace(MAX_DEPTH as nat, t, types, c) matches Some((_, _, c1)) ==> goes_on(c, c1),
{
    if let Some((_, _, c1)) = replace(MAX_DEPTH as nat, t, types, c) {
        lemma_replace_grows(MAX_DEPTH as nat, t, types, c);
        if c1.type_bindings.len() <= usize::MAX {
            law_replace_is_fresh(MAX_DEPTH as nat, t, types, c);
        }
    }
}

proof fn lemma_visit_goes_on(visit: Visit, trait_id: TraitInfoId, types: Map<usize, Ty>, c: Cache)
    ensures
        visit_bound(visit, trait_id, types, c) matches Some((_, c1)) ==> goes_on(c, c1),
{
    match visit {
        Visit::Invalid(location) => {
            lemma_report_goes_on(c, location, Report::InvalidSyntaxInIrrefutablePattern);
        },
        Visit::Variable(name, definition, _) => {
            if let Some((_, end)) = visit_bound(visit, trait_id, types, c) {
                let member = member_of(name, trait_id, c)->0;
                let scheme = c.definition_infos[member.0 as int].typ->0;
                lemma_replace_goes_on(scheme.body(), types, c);
                let (t, _, c1) = replace(MAX_DEPTH as nat, scheme.body(), types, c)->0;
                let id = definition->0;
                let def = Def {
                    typ: Some(Scheme::Mono(t)),
                    ..c1.definition_infos[id.0 as int]
                };
                lemma_definition_goes_on(c1, id, def);
                law_goes_on_further(c, c1, end);
            }
        },
    }
}

proof fn lemma_pattern_binding_goes_on(k: PatternBinding, types: Map<usize, Ty>, c: Cache)
    ensures
        pattern_binding_step(k, types, c) matches Some((_, _, c1, _)) ==> goes_on(c, c1),
    decreases k.found.len() - k.next,
{
    if pattern_binding_step(k, types, c) is Some && k.next < k.found.len() && !trait_is_missing(
        k.found[k.next],
        k.trait_id,
        c,
    ) {
        lemma_visit_goes_on(k.found[k.next], k.trait_id, types, c);
        let (types1, c1) = visit_bound(k.found[k.next], k.trait_id, types, c)->0;
        let next = PatternBinding { next: k.next + 1, ..k };
        lemma_pattern_binding_goes_on(next, types1, c1);
        let (_, _, c2, _) = pattern_binding_step(next, types1, c1)->0;
        law_goes_on_further(c, c1, c2);
    }
}

proof fn lemma_matching_goes_on(used: Signature, given: Seq<Signature>, c: Cache)
    ensures
        matching(used, given, c) matches Some((_, c1)) ==> goes_on(c, c1),
    decreases given.len(),
{
    if given.len() > 0 && matching(used, given, c) is Some {
        if given[0].trait_id != used.trait_id {
            lemma_matching_goes_on(used, given.skip(1), c);
        } else {
            let s = State { solution: Solution::empty(), cache: c };
            lemma_unify_seq_keeps(MAX_DEPTH as nat, used.args, given[0].args, s);
            let (fitting, c1) = fits(used.args, given[0].args, c)->0;
            assert(goes_on(c, c1));
            if !fitting {
                lemma_matching_goes_on(used, given.skip(1), c1);
                let c2 = (matching(used, given.skip(1), c1)->0).1;
                law_goes_on_further(c, c1, c2);
            }
        }
    }
}

proof fn lemma_check_goes_on(k: Check, given: Seq<Signature>, c: Cache)
    ensures
        check_step(k, given, c) matches Some((_, c1, _)) ==> goes_on(c, c1),
    decreases k.used.len() - k.next,
{
    if check_step(k, given, c) is Some {
        if k.next >= k.used.len() {
            let def = Def {
                required_traits: k.kept,
                ..c.definition_infos[k.definition.0 as int]
            };
            lemma_definition_goes_on(c, k.definition, def);
        } else {
            let used = k.used[k.next];
            let all = required_signatures(k.useable) + given;
            lemma_matching_goes_on(used.signature, all, c);
            if let Some((Some(id), c1)) = matching(used.signature, all, c) {
                let kept = k.kept.push(
                    Required {
                        signature: Signature { id, ..used.signature },
                        ..used
                    },
                );
                let next = Check { next: k.next + 1, kept, ..k };
                lemma_check_goes_on(next, given, c1);
                let c2 = (check_step(next, given, c1)->0).1;
                law_goes_on_further(c, c1, c2);
            }
        }
    }
}

proof fn lemma_pattern_check_goes_on(k: PatternCheck, given: Seq<Signature>, c: Cache)
    ensures
        pattern_check_step(k, given, c) matches Some((_, c1, _)) ==> goes_on(c, c1),
    decreases
            k.found.len() - k.next,
            if k.current is Some {
                1int
            } else {
                0int
            },
{
    if pattern_check_step(k, given, c) is Some {
        match k.current {
            Some(check) => {
                lemma_check_goes_on(check, given, c);
                let (_, c1, todo) = check_step(check, given, c)->0;
                if todo is None {
                    let next = PatternCheck { current: None, ..k };
                    lemma_pattern_check_goes_on(next, given, c1);
                    let c2 = (pattern_check_step(next, given, c1)->0).1;
                    law_goes_on_further(c, c1, c2);
                }
            },
            None => {
                if k.next < k.found.len() && !trait_is_missing(k.found[k.next], k.trait_id, c) {
                    match k.found[k.next] {
                        Visit::Invalid(location) => {
                            let report = Report::InvalidSyntaxInIrrefutablePattern;
                            let c1 = c.report(location, report);
                            lemma_report_goes_on(c, location, report);
                            let next = PatternCheck { next: k.next + 1, ..k };
                            lemma_pattern_check_goes_on(next, given, c1);
                            let c2 = (pattern_check_step(next, given, c1)->0).1;
                            law_goes_on_further(c, c1, c2);
                        },
                        Visit::Variable(name, definition, scope) => {
                            let check = check_begun(name, definition, scope, k.trait_id, c)->0;
                            let next = PatternCheck {
                                next: k.next + 1,
                                current: Some(check),
                                ..k
                            };
                            lemma_pattern_check_goes_on(next, given, c);
                        },
                    }
                }
            },
        }
    }
}

/// Whether the inference of an impl goes from `p` to `q` in order. A step begins with at most one
/// definition, the next one, and only where nothing is left to do for the one before. A definition
/// that is to be inferred is the one begun with last, whose variables have their types then; and
/// constraints are resolved after it. The trait is inferred as soon as a member's type is needed.
pub open spec fn is_in_order(p: Progress, q: Progress, action: Action, patterns: Seq<Pat>) -> bool {
    &&& q.trait_id == p.trait_id
    &&& match action {
        Action::InferTrait(id) => id == p.trait_id && (q.phase is Binding
            || q.phase is Checking),
        Action::InferDefinition(i) => i == q.next - 1 && q.phase is Inferring,
        Action::Resolve(_) => q.phase is Checking || q.phase is Forcing,
        Action::Done(_) => q.next >= patterns.len() && q.phase is Forcing,
    }
    &&& p.phase is Binding ==> q.phase is Binding || q.phase is Inferring
    &&& q.next == if !(p.phase is Binding) && (q.phase is Binding || q.phase is Inferring) {
        p.next + 1
    } else {
        p.next
    }
}

/// A step of the inference of an impl only goes on: it keeps what was bound and reported. And it
/// goes on in order.
pub proof fn law_impl_step_goes_on(
    p: Progress,
    event: Event,
    patterns: Seq<Pat>,
    impl_id: Option<ImplInfoId>,
    c: Cache,
)
    ensures
        impl_step(p, event, patterns, impl_id, c) matches Some((q, c1, action)) ==> goes_on(c, c1)
            && is_in_order(p, q, action, patterns),
{
    if let Some((q, c1, action)) = impl_step(p, event, patterns, impl_id, c) {
        match event {
            Event::Resumed => lemma_impl_goes_on(p, patterns, c),
            Event::Inferred(left) => {
                let given = given_of(impl_id, c)->0;
                let check = PatternCheck {
                    trait_id: p.trait_id,
                    found: visits_of(patterns[p.next - 1]),
                    next: 0,
                    current: None,
                };
                let next = Progress { phase: Phase::Checking { check, given, left }, ..p };
                lemma_impl_goes_on(next, patterns, c);
            },
        }
    }
}

proof fn lemma_impl_goes_on(p: Progress, patterns: Seq<Pat>, c: Cache)
    ensures
        impl_goes_on(p, patterns, c) matches Some((q, c1, action)) ==> goes_on(c, c1)
            && is_in_order(p, q, action, patterns),
    decreases patterns.len() - p.next, phase_rank(p.phase),
{
    if let Some((_, end, _)) = impl_goes_on(p, patterns, c) {
        match p.phase {
            Phase::Binding { binding } => lemma_pattern_binding_goes_on(binding, p.types, c),
            Phase::Inferring => {},
            Phase::Checking { check, given, left } => {
                lemma_pattern_check_goes_on(check, given, c);
                let (_, c1, todo) = pattern_check_step(check, given, c)->0;
                if todo is Done {
                    let next = Progress { phase: Phase::Forcing { left }, ..p };
                    lemma_impl_goes_on(next, patterns, c1);
                    law_goes_on_further(c, c1, end);
                }
            },
            Phase::Forcing { left } => {
                if left.len() == 0 {
                    if p.next >= patterns.len() {
                        lemma_fresh_goes_on(c, c.current_level);
                    } else {
                        let binding = PatternBinding {
                            trait_id: p.trait_id,
                            found: visits_of(patterns[p.next]),
                            next: 0,
                        };
                        let next = Progress {
                            next: p.next + 1,
                            phase: Phase::Binding { binding },
                            ..p
                        };
                        lemma_impl_goes_on(next, patterns, c);
                    }
                }
            },
        }
    }
}

} // verus!
