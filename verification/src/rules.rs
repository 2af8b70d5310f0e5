//! The decisions within the inference rules: which error to report, and what may be mutated.

use crate::cache::{
    Cache, DefinitionInfoId, Diagnostic, DiagnosticKind, Issue, Location, ModuleCache, Reason,
    Report, TypeErrorKind,
};
use crate::definitions::is_cache;
use crate::resolve::{follow, follow_in_cache_at, MAX_DEPTH};
use crate::solve::{after_unify, fresh_unification, try_unify_at, unify_or_report};
use crate::subst::next_type_variable;
use crate::types::{tys, FunctionType, Ty, Type, TypeTag};
use vstd::prelude::*;

verus! {

/// The type bound to what `t` stands for in the cache.
pub open spec fn follow_in(t: Ty, c: Cache) -> Option<Ty> {
    follow(MAX_DEPTH as nat, t, Map::empty(), c.type_bindings)
}

/// The two functions that the types are, if both are: the first one is followed through the cache.
pub fn try_unwrap_functions(f: Type, new_function: Type, cache: &ModuleCache) -> (r: Option<
    Option<(FunctionType, FunctionType)>,
>)
    ensures
        match follow_in(f@, cache@) {
            None => r is None,
            Some(followed) => r is Some && if followed is Function && new_function@ is Function {
                r->0 matches Some((f1, f2)) && f1@ == followed && f2@ == new_function@
            } else {
                r->0 is None
            },
        },
{
    let f = follow_in_cache_at(MAX_DEPTH, &f, cache)?;
    match (f, new_function) {
        (Type::Function(f1), Type::Function(f2)) => Some(Some((f1, f2))),
        _ => Some(None),
    }
}

/// The first `n` arguments unified with their parameters, each at its own location.
pub open spec fn arguments_unified(
    n: nat,
    arguments: Seq<Ty>,
    parameters: Seq<Ty>,
    locations: Seq<Location>,
    c: Cache,
) -> Option<Cache>
    decreases n,
{
    if n == 0 {
        Some(c)
    } else {
        match arguments_unified((n - 1) as nat, arguments, parameters, locations, c) {
            None => None,
            Some(c1) => after_unify(
                arguments[n - 1],
                parameters[n - 1],
                locations[n - 1],
                Reason::ArgumentTypeMismatch,
                c1,
            ),
        }
    }
}

proof fn lemma_arguments_unified_none(
    n: nat,
    m: nat,
    arguments: Seq<Ty>,
    parameters: Seq<Ty>,
    locations: Seq<Location>,
    c: Cache,
)
    requires
        n <= m,
        arguments_unified(n, arguments, parameters, locations, c) is None,
    ensures
        arguments_unified(m, arguments, parameters, locations, c) is None,
    decreases m,
{
    if n < m {
        lemma_arguments_unified_none(
            n,
            (m - 1) as nat,
            arguments,
            parameters,
            locations,
            c,
        );
    }
}

/// The lesser one of two numbers.
pub open spec fn least(a: nat, b: nat) -> nat {
    if a <= b {
        a
    } else {
        b
    }
}

/// What reporting a call that does not fit makes of the cache. A value that is no function is
/// reported as it was found. Else a wrong number of arguments is reported, and each argument that
/// does not fit its parameter; if all do, the function types are reported.
pub open spec fn call_reported(
    location: Location,
    locations: Seq<Location>,
    f: Ty,
    call: Ty,
    original: Issue,
    c: Cache,
) -> Option<Cache> {
    match follow_in(f, c) {
        None => None,
        Some(expected) => match (expected, call) {
            (
                Ty::Function { parameters, has_varargs, .. },
                Ty::Function { parameters: arguments, has_varargs: call_varargs, .. },
            ) => {
                let c1 = if parameters.len() != arguments.len() && !has_varargs && !call_varargs {
                    c.report(
                        location,
                        Report::FunctionParameterCountMismatch(
                            expected,
                            arguments.len() as usize,
                            parameters.len() as usize,
                        ),
                    )
                } else {
                    c
                };
                let n = least(least(arguments.len(), parameters.len()), locations.len());
                match arguments_unified(n, arguments, parameters, locations, c1) {
                    None => None,
                    Some(c2) => Some(
                        if c2.diagnostics.len() == c.diagnostics.len() {
                            c2.report(location, Report::FunctionTypeMismatch(call, expected))
                        } else {
                            c2
                        },
                    ),
                }
            },
            _ => Some(c.with_issue(original)),
        },
    }
}

/// Reports a call of `f` whose arguments make up the function type `new_function`, which did not
/// unify with that of `f`.
pub fn issue_argument_types_error(
    location: Location,
    argument_locations: &[Location],
    f: Type,
    new_function: Type,
    original_error: Diagnostic,
    cache: &mut ModuleCache,
) -> (r: Option<()>)
    ensures
        is_cache(
            r,
            final(cache)@,
            call_reported(
                location,
                argument_locations@,
                f@,
                new_function@,
                original_error@,
                old(cache)@,
            ),
        ),
{
    let ghost c = cache@;
    match try_unwrap_functions(f, new_function, cache)? {
        Some((expected, actual)) => {
            let error_count: usize = cache.error_count();
            let ghost arguments = tys(actual.parameters@);
            let ghost parameters = tys(expected.parameters@);
            let ghost expected_ty = expected@;
            let ghost actual_ty = actual@;
            assert(arguments.len() == actual.parameters.len());
            assert(parameters.len() == expected.parameters.len());
            if expected.parameters.len() != actual.parameters.len() && !expected.has_varargs
                && !actual.has_varargs {
                cache.push_diagnostic(
                    location,
                    DiagnosticKind::FunctionParameterCountMismatch(
                        expected.clone(),
                        actual.parameters.len(),
                        expected.parameters.len(),
                    ),
                );
            }
            let ghost c1 = cache@;
            let ghost n = least(
                least(arguments.len(), parameters.len()),
                argument_locations@.len(),
            );
            let mut i: usize = 0;
            while i < actual.parameters.len() && i < expected.parameters.len() && i
                < argument_locations.len()
                invariant
                    i <= n,
                    n == least(
                        least(arguments.len(), parameters.len()),
                        argument_locations@.len(),
                    ),
                    arguments == tys(actual.parameters@),
                    parameters == tys(expected.parameters@),
                    arguments_unified(
                        i as nat,
                        arguments,
                        parameters,
                        argument_locations@,
                        c1,
                    ) == Some(cache@),
                    c == old(cache)@,
                    match arguments_unified(n, arguments, parameters, argument_locations@, c1) {
                        None => call_reported(
                            location,
                            argument_locations@,
                            f@,
                            new_function@,
                            original_error@,
                            c,
                        ) is None,
                        Some(_) => true,
                    },
                decreases actual.parameters.len() - i,
            {
                assert(arguments[i as int] == actual.parameters@[i as int]@);
                assert(parameters[i as int] == expected.parameters@[i as int]@);
                let done = unify_or_report(
                    &actual.parameters[i],
                    &expected.parameters[i],
                    argument_locations[i],
                    cache,
                    TypeErrorKind::ArgumentTypeMismatch,
                );
                if done.is_none() {
                    proof {
                        lemma_arguments_unified_none(
                            (i + 1) as nat,
                            n,
                            arguments,
                            parameters,
                            argument_locations@,
                            c1,
                        );
                    }
                    return None;
                }
                i += 1;
            }
            // Every argument fits, so that the effects or the environments must differ.
            if cache.error_count() == error_count {
                cache.push_diagnostic(
                    location,
                    DiagnosticKind::FunctionTypeMismatch(actual, expected),
                );
            }
            Some(())
        },
        None => {
            cache.push_full_diagnostic(original_error);
            Some(())
        },
    }
}

/// The constructor of a mutable reference that may be owned or shared, and the cache with the
/// fresh variables in it.
pub open spec fn mutable_ref(c: Cache) -> (Ty, Cache) {
    let level = c.current_level;
    let c1 = c.fresh(level);
    (
        Ty::Ref {
            sharedness: Box::new(Ty::Variable(c.next_id())),
            mutability: Box::new(Ty::Tag(TypeTag::Mutable)),
            lifetime: Box::new(Ty::Variable(c1.next_id())),
        },
        c1.fresh(level),
    )
}

/// The constructor of a mutable reference that may be owned or shared.
pub fn mut_polymorphically_shared_ref(cache: &mut ModuleCache) -> (r: Type)
    ensures
        r@ == mutable_ref(old(cache)@).0,
        final(cache)@ == mutable_ref(old(cache)@).1,
{
    let mutability = Type::Tag(TypeTag::Mutable);
    assert(mutability@ == Ty::Tag(TypeTag::Mutable));
    let sharedness = next_type_variable(cache);
    let lifetime = next_type_variable(cache);
    Type::Ref {
        sharedness: Box::new(sharedness),
        mutability: Box::new(mutability),
        lifetime: Box::new(lifetime),
    }
}

/// A type constructor at one argument.
pub open spec fn at_one(constructor: Ty, arg: Ty) -> Ty {
    Ty::Application(Box::new(constructor), seq![arg])
}

/// A type constructor at one argument.
pub fn apply_to_one(constructor: Type, arg: Type) -> (r: Type)
    ensures
        r@ == at_one(constructor@, arg@),
{
    let args = vec![arg];
    assert(tys(args@) =~= seq![arg@]);
    Type::TypeApplication(Box::new(constructor), args)
}

/// What reporting an assignment that does not fit makes of the cache: either what is assigned to
/// is no mutable reference, or it is one to values of another type.
pub open spec fn assignment_reported(
    lhs: Ty,
    lhs_location: Location,
    rhs: Ty,
    location: Location,
    c: Cache,
) -> Option<Cache> {
    let (constructor, c1) = mutable_ref(c.fresh(c.current_level));
    let expected = at_one(constructor, Ty::Variable(c.next_id()));
    match fresh_unification(lhs, expected, c1) {
        None => None,
        Some(step) => if !step.ok {
            Some(
                step.state.cache.report(
                    lhs_location,
                    Report::TypeError(Reason::AssignToNonMutRef, lhs, expected),
                ),
            )
        } else {
            match follow_in(lhs, step.state.cache) {
                Some(Ty::Application(_, args)) => if args.len() == 0 {
                    None
                } else {
                    after_unify(
                        args[0],
                        rhs,
                        location,
                        Reason::AssignToWrongType,
                        step.state.cache,
                    )
                },
                _ => None,
            }
        },
    }
}

/// Reports an assignment that does not fit.
pub fn issue_assignment_error(
    lhs: &Type,
    lhs_location: Location,
    rhs: &Type,
    location: Location,
    cache: &mut ModuleCache,
) -> (r: Option<()>)
    ensures
        is_cache(
            r,
            final(cache)@,
            assignment_reported(lhs@, lhs_location, rhs@, location, old(cache)@),
        ),
{
    let var = next_type_variable(cache);
    let constructor = mut_polymorphically_shared_ref(cache);
    let mutref = apply_to_one(constructor, var);
    match try_unify_at(lhs, &mutref, lhs_location, cache, TypeErrorKind::AssignToNonMutRef)? {
        Err(diagnostic) => {
            cache.push_full_diagnostic(diagnostic);
            Some(())
        },
        Ok(_) => match follow_in_cache_at(MAX_DEPTH, lhs, cache)? {
            Type::TypeApplication(_, args) => {
                if args.len() == 0 {
                    assert(tys(args@).len() == 0);
                    return None;
                }
                assert(tys(args@)[0] == args@[0]@);
                unify_or_report(
                    &args[0],
                    rhs,
                    location,
                    cache,
                    TypeErrorKind::AssignToWrongType,
                )
            },
            _ => None,
        },
    }
}

/// What an expression refers to, where it is to be mutated.
#[derive(Debug, Clone, Copy, PartialEq, Eq, Structural)]
pub enum Place {
    Variable(Option<DefinitionInfoId>, Location),
    /// A field of something that was checked when the access was inferred.
    MemberAccess,
    /// A value that nothing else refers to.
    Temporary(Location),
}

/// What checking that a place may be mutated makes of the cache.
pub open spec fn place_checked(place: Place, allow_temporary: bool, c: Cache) -> Option<Cache> {
    match place {
        Place::Variable(None, _) => Some(c),
        Place::Variable(Some(id), location) => if id.0 >= c.definition_infos.len() {
            None
        } else if c.definition_infos[id.0 as int].mutable {
            Some(c)
        } else {
            Some(
                c.report(
                    location,
                    Report::MutRefToImmutableVariable(c.definition_infos[id.0 as int].name),
                ),
            )
        },
        Place::MemberAccess => Some(c),
        Place::Temporary(location) => Some(
            if allow_temporary {
                c
            } else {
                c.report(location, Report::MutRefToTemporary)
            },
        ),
    }
}

/// Reports a place that is neither a mutable variable nor a field. A temporary value may be
/// allowed too.
pub fn check_field_access_lhs_is_mutable(
    place: Place,
    allow_mut_ref_to_temporary: bool,
    cache: &mut ModuleCache,
) -> (r: Option<()>)
    ensures
        is_cache(
            r,
            final(cache)@,
            place_checked(place, allow_mut_ref_to_temporary, old(cache)@),
        ),
{
    match place {
        Place::Variable(None, _) => Some(()),
        Place::Variable(Some(id), location) => {
            if id.0 >= cache.definition_infos.len() {
                return None;
            }
            assert(cache@.definition_infos[id.0 as int] == cache.definition_infos@[id.0 as int]@);
            if !cache.definition_infos[id.0].mutable {
                let name = cache.definition_infos[id.0].name.clone();
                cache.push_diagnostic(location, DiagnosticKind::MutRefToImmutableVariable(name));
            }
            Some(())
        },
        Place::MemberAccess => Some(()),
        Place::Temporary(location) => {
            if !allow_mut_ref_to_temporary {
                cache.push_diagnostic(location, DiagnosticKind::MutRefToTemporary);
            }
            Some(())
        },
    }
}

} // verus!
