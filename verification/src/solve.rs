//! The entry points of unification: each tries to unify, and some commit to the result.

use crate::bindings::{Solution, UnificationBindings};
use crate::cache::{
    Cache, Diagnostic, DiagnosticKind, Issue, Location, ModuleCache, Reason, Report, TypeErrorKind,
};
use crate::resolve::MAX_DEPTH;
use crate::types::{tys, Ty, Type, TypeVariableId};
use crate::unify::{
    is_step, state_of, succeeded, unify_at, unify_seq, unify_types, unify_variable,
    unify_variable_at, Manner, State, Step,
};
use crate::unify_laws::{law_unify_keeps, lemma_unify_seq_keeps};
use vstd::prelude::*;

verus! {

/// The bindings found, or why there are none.
pub type UnificationResult = Result<UnificationBindings, Diagnostic>;

/// Unification from the given state.
pub open spec fn unification(actual: Ty, expected: Ty, s: State) -> Option<Step> {
    unify_types(MAX_DEPTH as nat, actual, expected, s)
}

/// Unification without any bindings to begin with.
pub open spec fn fresh_unification(actual: Ty, expected: Ty, c: Cache) -> Option<Step> {
    unification(actual, expected, State { solution: Solution::empty(), cache: c })
}

/// What is reported of two types that do not unify, where that is found in the given cache.
pub open spec fn mismatch(
    location: Location,
    reason: Reason,
    actual: Ty,
    expected: Ty,
    c: Cache,
) -> Issue {
    c.issue(location, Report::TypeError(reason, actual, expected))
}

/// Whether a result, and the cache left behind, are those of a step that reports the issue if it
/// fails.
pub open spec fn is_outcome(r: UnificationResult, c: Cache, step: Step, issue: Issue) -> bool {
    &&& c == step.state.cache
    &&& match r {
        Ok(bindings) => step.ok && bindings@ == step.state.solution && bindings@.known_to(c),
        Err(diagnostic) => !step.ok && diagnostic@ == issue,
    }
}

/// The cache after the types were unified in it: with the solution committed, or the issue
/// reported.
pub open spec fn after_unify(
    actual: Ty,
    expected: Ty,
    location: Location,
    reason: Reason,
    c: Cache,
) -> Option<Cache> {
    match fresh_unification(actual, expected, c) {
        None => None,
        Some(step) => Some(
            if step.ok {
                step.state.cache.perform(step.state.solution)
            } else {
                step.state.cache.report(
                    location,
                    Report::TypeError(reason, actual, expected),
                )
            },
        ),
    }
}

/// Tries to unify the two given types, with the given bindings in addition to those of the cache.
/// No type variable is bound in place: its binding is added to the given ones, and the caller
/// decides whether to use them. On an error, bindings may have been added before it.
pub fn try_unify_with_bindings_inner(
    actual: &Type,
    expected: &Type,
    bindings: &mut UnificationBindings,
    _location: Location,
    cache: &mut ModuleCache,
) -> (r: Result<(), ()>)
    requires
        unification(actual@, expected@, state_of(*old(bindings), *old(cache))) is Some,
    ensures
        is_step(
            Some(r),
            state_of(*final(bindings), *final(cache)),
            unification(actual@, expected@, state_of(*old(bindings), *old(cache))),
        ),
{
    unify_at(MAX_DEPTH, actual, expected, bindings, cache).unwrap()
}

/// Unifies a single type variable, which the type `a` is or stands for, with the type `b`.
pub fn try_unify_type_variable_with_bindings(
    id: TypeVariableId,
    a: &Type,
    b: &Type,
    typevar_on_lhs: bool,
    bindings: &mut UnificationBindings,
    _location: Location,
    cache: &mut ModuleCache,
) -> (r: Result<(), ()>)
    requires
        unify_variable(
            MAX_DEPTH as nat,
            id,
            a@,
            b@,
            typevar_on_lhs,
            state_of(*old(bindings), *old(cache)),
        ) is Some,
    ensures
        is_step(
            Some(r),
            state_of(*final(bindings), *final(cache)),
            unify_variable(
                MAX_DEPTH as nat,
                id,
                a@,
                b@,
                typevar_on_lhs,
                state_of(*old(bindings), *old(cache)),
            ),
        ),
{
    unify_variable_at(MAX_DEPTH, id, a, b, typevar_on_lhs, bindings, cache).unwrap()
}

/// `try_unify_with_bindings` for types of any shape: `None` where unification is not defined.
pub fn try_unify_with_bindings_at(
    actual: &Type,
    expected: &Type,
    bindings: &mut UnificationBindings,
    location: Location,
    cache: &mut ModuleCache,
    error: TypeErrorKind,
) -> (r: Option<Result<(), Diagnostic>>)
    ensures
        match unification(actual@, expected@, state_of(*old(bindings), *old(cache))) {
            None => r is None,
            Some(step) => state_of(*final(bindings), *final(cache)) == step.state && match r {
                None => false,
                Some(Ok(())) => step.ok,
                Some(Err(diagnostic)) => !step.ok && diagnostic@ == mismatch(
                    location,
                    error@,
                    actual@,
                    expected@,
                    step.state.cache,
                ),
            },
        },
{
    match unify_at(MAX_DEPTH, actual, expected, bindings, cache)? {
        Ok(()) => Some(Ok(())),
        Err(()) => {
            let kind = DiagnosticKind::TypeError(error, actual.clone(), expected.clone());
            Some(Err(cache.diagnostic(location, kind)))
        },
    }
}

/// Tries to unify the two given types, with the given bindings in addition to those of the cache,
/// to which new ones are added.
pub fn try_unify_with_bindings(
    actual: &Type,
    expected: &Type,
    bindings: &mut UnificationBindings,
    location: Location,
    cache: &mut ModuleCache,
    error: TypeErrorKind,
) -> (r: Result<(), Diagnostic>)
    requires
        unification(actual@, expected@, state_of(*old(bindings), *old(cache))) is Some,
    ensures
        unification(actual@, expected@, state_of(*old(bindings), *old(cache))) matches Some(step)
            && state_of(*final(bindings), *final(cache)) == step.state && match r {
            Ok(()) => step.ok,
            Err(diagnostic) => !step.ok && diagnostic@ == mismatch(
                location,
                error@,
                actual@,
                expected@,
                step.state.cache,
            ),
        },
{
    try_unify_with_bindings_at(actual, expected, bindings, location, cache, error).unwrap()
}

/// `try_unify` for types of any shape: `None` where unification is not defined.
pub fn try_unify_at(
    actual: &Type,
    expected: &Type,
    location: Location,
    cache: &mut ModuleCache,
    error_kind: TypeErrorKind,
) -> (r: Option<UnificationResult>)
    ensures
        match fresh_unification(actual@, expected@, old(cache)@) {
            None => r is None,
            Some(step) => r is Some && is_outcome(
                r->0,
                final(cache)@,
                step,
                mismatch(location, error_kind@, actual@, expected@, step.state.cache),
            ),
        },
{
    let mut bindings = UnificationBindings::empty();
    proof {
        law_unify_keeps(MAX_DEPTH as nat, actual@, expected@, state_of(bindings, *cache));
    }
    match try_unify_with_bindings_at(
        actual,
        expected,
        &mut bindings,
        location,
        cache,
        error_kind,
    )? {
        Ok(()) => Some(Ok(bindings)),
        Err(diagnostic) => Some(Err(diagnostic)),
    }
}

/// Tries to unify the two given types without any bindings to begin with. Gives all the new
/// bindings on success, and what to report on an error.
pub fn try_unify(
    actual: &Type,
    expected: &Type,
    location: Location,
    cache: &mut ModuleCache,
    error_kind: TypeErrorKind,
) -> (r: UnificationResult)
    requires
        fresh_unification(actual@, expected@, old(cache)@) is Some,
    ensures
        fresh_unification(actual@, expected@, old(cache)@) matches Some(step) && is_outcome(
            r,
            final(cache)@,
            step,
            mismatch(location, error_kind@, actual@, expected@, step.state.cache),
        ),
{
    try_unify_at(actual, expected, location, cache, error_kind).unwrap()
}

/// The position of the first pair of types that does not unify.
pub open spec fn failing_pair(xs: Seq<Ty>, ys: Seq<Ty>, s: State) -> int
    decreases xs.len(),
{
    if xs.len() == 0 || ys.len() == 0 {
        0
    } else {
        let first = unification(xs[0], ys[0], s);
        if succeeded(first) {
            1 + failing_pair(xs.skip(1), ys.skip(1), first->0.state)
        } else {
            0
        }
    }
}

/// Unification of all the types, pair by pair.
pub open spec fn unification_of_all(xs: Seq<Ty>, ys: Seq<Ty>, s: State) -> Option<Step> {
    unify_seq(MAX_DEPTH as nat, xs, ys, s)
}

/// Whether a result, and the cache left behind, are those of unifying all the types: lists of
/// different lengths are an error of their own, which leaves the cache alone, and the first pair
/// that does not unify is the one reported.
pub open spec fn is_outcome_of_all(
    r: UnificationResult,
    c: Cache,
    xs: Seq<Ty>,
    ys: Seq<Ty>,
    s: State,
    location: Location,
    reason: Reason,
) -> bool {
    if xs.len() != ys.len() {
        &&& c == s.cache
        &&& r matches Err(d) && d@ == c.issue(location, Report::TypeLengthMismatch(xs, ys))
    } else {
        let i = failing_pair(xs, ys, s);
        &&& unification_of_all(xs, ys, s) matches Some(step) && c == step.state.cache && match r {
            Ok(bindings) => step.ok && bindings@ == step.state.solution && (s.solution.known_to(
                s.cache,
            ) ==> bindings@.known_to(c)),
            Err(diagnostic) => !step.ok && 0 <= i < xs.len() && diagnostic@ == mismatch(
                location,
                reason,
                xs[i],
                ys[i],
                c,
            ),
        }
    }
}

/// `try_unify_all_with_bindings` for types of any shape: `None` where unification is not defined.
pub fn try_unify_all_with_bindings_at(
    actual: &[Type],
    expected: &[Type],
    bindings: UnificationBindings,
    location: Location,
    cache: &mut ModuleCache,
    error_kind: TypeErrorKind,
) -> (r: Option<UnificationResult>)
    ensures
        r is None <==> actual.len() == expected.len() && unification_of_all(
            tys(actual@),
            tys(expected@),
            state_of(bindings, *old(cache)),
        ) is None,
        r is Some ==> is_outcome_of_all(
            r->0,
            final(cache)@,
            tys(actual@),
            tys(expected@),
            state_of(bindings, *old(cache)),
            location,
            error_kind@,
        ),
{
    let ghost s0 = state_of(bindings, *cache);
    let ghost xs = tys(actual@);
    let ghost ys = tys(expected@);
    let ghost d = MAX_DEPTH as nat;
    let mut all = bindings;
    if actual.len() != expected.len() {
        let kind = DiagnosticKind::TypeLengthMismatch(to_vec(actual), to_vec(expected));
        return Some(Err(cache.diagnostic(location, kind)));
    }
    let mut i: usize = 0;
    let ghost mut manner = Manner::plain();
    proof {
        assert(xs.skip(0) =~= xs);
        assert(ys.skip(0) =~= ys);
        if s0.solution.known_to(s0.cache) {
            lemma_unify_seq_keeps(d, xs, ys, s0);
        }
    }
    while i < actual.len()
        invariant
            i <= actual.len(),
            actual.len() == expected.len(),
            xs == tys(actual@),
            ys == tys(expected@),
            d == MAX_DEPTH as nat,
            s0 == state_of(bindings, *old(cache)),
            unify_seq(d, xs, ys, s0) == crate::unify::after(
                manner,
                unify_seq(d, xs.skip(i as int), ys.skip(i as int), state_of(all, *cache)),
            ),
            failing_pair(xs, ys, s0) == i + failing_pair(
                xs.skip(i as int),
                ys.skip(i as int),
                state_of(all, *cache),
            ),
        decreases actual.len() - i,
    {
        let ghost s = state_of(all, *cache);
        let ghost first = unification(xs[i as int], ys[i as int], s);
        proof {
            assert(xs[i as int] == actual@[i as int]@);
            assert(ys[i as int] == expected@[i as int]@);
            assert(xs.skip(i as int).skip(1) =~= xs.skip(i + 1));
            assert(ys.skip(i as int).skip(1) =~= ys.skip(i + 1));
        }
        match try_unify_with_bindings_at(
            &actual[i],
            &expected[i],
            &mut all,
            location,
            cache,
            error_kind.clone(),
        )? {
            Ok(()) => {},
            Err(diagnostic) => {
                return Some(Err(diagnostic));
            },
        }
        proof {
            manner = manner.and(first->0.manner);
        }
        i += 1;
    }
    Some(Ok(all))
}

/// The types, each cloned.
pub fn to_vec(types: &[Type]) -> (r: Vec<Type>)
    ensures
        tys(r@) == tys(types@),
{
    let mut r: Vec<Type> = Vec::new();
    let mut i: usize = 0;
    while i < types.len()
        invariant
            i <= types.len(),
            r.len() == i,
            forall|j: int| 0 <= j < i ==> (#[trigger] r@[j])@ == types@[j]@,
        decreases types.len() - i,
    {
        r.push(types[i].clone());
        i += 1;
    }
    assert(tys(r@) =~= tys(types@));
    r
}

/// Tries to unify all the given types, pair by pair, with the given bindings in addition to those
/// of the cache. New bindings are added to the given ones, and all of them returned on success.
pub fn try_unify_all_with_bindings(
    actual: &[Type],
    expected: &[Type],
    bindings: UnificationBindings,
    location: Location,
    cache: &mut ModuleCache,
    error_kind: TypeErrorKind,
) -> (r: UnificationResult)
    requires
        actual.len() == expected.len() ==> unification_of_all(
            tys(actual@),
            tys(expected@),
            state_of(bindings, *old(cache)),
        ) is Some,
    ensures
        is_outcome_of_all(
            r,
            final(cache)@,
            tys(actual@),
            tys(expected@),
            state_of(bindings, *old(cache)),
            location,
            error_kind@,
        ),
{
    try_unify_all_with_bindings_at(
        actual,
        expected,
        bindings,
        location,
        cache,
        error_kind,
    ).unwrap()
}

/// The same as `try_unify_all_with_bindings` without any bindings to begin with, and with an
/// error that is never shown.
pub fn try_unify_all_hide_error(
    actual: &[Type],
    expected: &[Type],
    cache: &mut ModuleCache,
) -> (r: UnificationResult)
    requires
        actual.len() == expected.len() ==> unification_of_all(
            tys(actual@),
            tys(expected@),
            State { solution: Solution::empty(), cache: old(cache)@ },
        ) is Some,
    ensures
        is_outcome_of_all(
            r,
            final(cache)@,
            tys(actual@),
            tys(expected@),
            State { solution: Solution::empty(), cache: old(cache)@ },
            Location { file: 0, start: 0, end: 0 },
            Reason::NeverShown,
        ),
{
    let bindings = UnificationBindings::empty();
    let location = Location::builtin();
    try_unify_all_with_bindings(
        actual,
        expected,
        bindings,
        location,
        cache,
        TypeErrorKind::NeverShown,
    )
}

/// Commits to the result of an attempt to unify: places all the bindings in the cache, or reports
/// the error.
pub fn perform_bindings_or_push_error(
    unification_result: UnificationResult,
    cache: &mut ModuleCache,
)
    requires
        unification_result matches Ok(bindings) ==> bindings@.known_to(old(cache)@),
    ensures
        final(cache)@ == match unification_result {
            Ok(bindings) => old(cache)@.perform(bindings@),
            Err(diagnostic) => old(cache)@.with_issue(diagnostic@),
        },
{
    match unification_result {
        Ok(bindings) => bindings.perform(cache),
        Err(diagnostic) => cache.push_full_diagnostic(diagnostic),
    }
}

/// `unify` for types of any shape: `None` where unification is not defined.
pub fn unify_or_report(
    actual: &Type,
    expected: &Type,
    location: Location,
    cache: &mut ModuleCache,
    error_kind: TypeErrorKind,
) -> (r: Option<()>)
    ensures
        match after_unify(actual@, expected@, location, error_kind@, old(cache)@) {
            None => r is None,
            Some(c) => r is Some && final(cache)@ == c,
        },
{
    let result = try_unify_at(actual, expected, location, cache, error_kind)?;
    perform_bindings_or_push_error(result, cache);
    Some(())
}

/// Unifies the two given types and remembers the result in the cache. If they do not unify, an
/// error is reported.
pub fn unify(
    actual: &Type,
    expected: &Type,
    location: Location,
    cache: &mut ModuleCache,
    error_kind: TypeErrorKind,
)
    requires
        after_unify(actual@, expected@, location, error_kind@, old(cache)@) is Some,
    ensures
        after_unify(actual@, expected@, location, error_kind@, old(cache)@) == Some(final(cache)@),
{
    unify_or_report(actual, expected, location, cache, error_kind).unwrap();
}

} // verus!
