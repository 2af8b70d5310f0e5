use std::collections::HashMap;
use typechecker::bindings::UnificationBindings;
use typechecker::cache::{
    DiagnosticKind, Location, ModuleCache, TypeBinding, TypeErrorKind, TypeInfo, TypeInfoBody,
};
use typechecker::resolve::{
    find_binding, follow_bindings_in_cache, follow_bindings_in_cache_and_map, has_binding,
    type_application_bindings,
};
use typechecker::solve::{
    perform_bindings_or_push_error, try_unify, try_unify_all_hide_error,
    try_unify_all_with_bindings, try_unify_type_variable_with_bindings, try_unify_with_bindings,
    try_unify_with_bindings_inner, unify, unify_or_report,
};
use typechecker::subst::{bind_at, next_type_variable, next_type_variable_id};
use typechecker::types::{
    Effect, EffectInfoId, EffectSet, Field, FunctionType, IntegerKind, Kind, LetBindingLevel,
    PrimitiveType, Type, TypeInfoId, TypeTag, TypeVariableId,
};
use typechecker::unify::unify_at;

fn var(id: usize) -> Type {
    Type::TypeVariable(TypeVariableId(id))
}

fn boolean() -> Type {
    Type::Primitive(PrimitiveType::BooleanType)
}

fn character() -> Type {
    Type::Primitive(PrimitiveType::CharType)
}

fn pure() -> Type {
    Type::Effects(EffectSet::only(vec![]))
}

fn function(parameters: Vec<Type>, return_type: Type) -> Type {
    Type::Function(FunctionType {
        parameters,
        return_type: Box::new(return_type),
        environment: Box::new(Type::unit()),
        effects: Box::new(pure()),
        has_varargs: false,
    })
}

fn varargs(parameters: Vec<Type>, return_type: Type) -> Type {
    Type::Function(FunctionType {
        parameters,
        return_type: Box::new(return_type),
        environment: Box::new(Type::unit()),
        effects: Box::new(pure()),
        has_varargs: true,
    })
}

fn apply(constructor: Type, args: Vec<Type>) -> Type {
    Type::TypeApplication(Box::new(constructor), args)
}

fn field(name: &str, typ: Type) -> Field {
    Field { name: name.to_string(), typ }
}

fn record(fields: Vec<Field>, rest: usize) -> Type {
    Type::Struct(fields, TypeVariableId(rest))
}

fn reference(tag: TypeTag) -> Type {
    Type::Ref {
        sharedness: Box::new(Type::Tag(TypeTag::Shared)),
        mutability: Box::new(Type::Tag(tag)),
        lifetime: Box::new(Type::unit()),
    }
}

fn place() -> Location {
    Location { file: 3, start: 10, end: 20 }
}

fn cache_with(count: usize) -> ModuleCache {
    let mut cache = ModuleCache::new();
    for _ in 0..count {
        next_type_variable(&mut cache);
    }
    cache
}

fn unified(a: &Type, b: &Type, cache: &mut ModuleCache) -> bool {
    try_unify(a, b, place(), cache, TypeErrorKind::NeverShown).is_ok()
}

fn resolved(t: &Type, cache: &ModuleCache) -> Type {
    bind_at(1000, t, &HashMap::new(), cache).unwrap()
}

#[test]
fn a_primitive_unifies_with_itself_alone() {
    let mut cache = cache_with(0);
    assert!(unified(&boolean(), &boolean(), &mut cache));
    assert!(!unified(&boolean(), &character(), &mut cache));
    assert!(!unified(&boolean(), &Type::UserDefined(TypeInfoId(0)), &mut cache));
    assert!(unified(
        &Type::UserDefined(TypeInfoId(4)),
        &Type::UserDefined(TypeInfoId(4)),
        &mut cache
    ));
    assert!(!unified(
        &Type::UserDefined(TypeInfoId(4)),
        &Type::UserDefined(TypeInfoId(5)),
        &mut cache
    ));
    assert!(unified(&Type::Tag(TypeTag::Owned), &Type::Tag(TypeTag::Owned), &mut cache));
    assert!(!unified(&Type::Tag(TypeTag::Owned), &Type::Tag(TypeTag::Mutable), &mut cache));
    assert_eq!(cache.error_count(), 0);
}

#[test]
fn a_variable_is_bound_to_the_other_type() {
    let mut cache = cache_with(1);
    let result = try_unify(&var(0), &boolean(), place(), &mut cache, TypeErrorKind::NeverShown);
    let bindings = result.unwrap();
    assert_eq!(bindings.bindings.get(&0), Some(&boolean()));
    assert_eq!(bindings.bindings.len(), 1);
    // Nothing is bound in the cache until the bindings are performed.
    assert_eq!(follow_bindings_in_cache(&var(0), &cache), var(0));
    bindings.perform(&mut cache);
    assert_eq!(follow_bindings_in_cache(&var(0), &cache), boolean());
}

#[test]
fn a_variable_on_the_right_is_bound_as_well() {
    let mut cache = cache_with(1);
    unify(&boolean(), &var(0), place(), &mut cache, TypeErrorKind::NeverShown);
    assert_eq!(follow_bindings_in_cache(&var(0), &cache), boolean());
}

#[test]
fn of_two_variables_the_left_one_is_bound() {
    let mut cache = cache_with(2);
    unify(&var(0), &var(1), place(), &mut cache, TypeErrorKind::NeverShown);
    assert_eq!(follow_bindings_in_cache(&var(0), &cache), var(1));
    assert_eq!(follow_bindings_in_cache(&var(1), &cache), var(1));
}

#[test]
fn a_variable_unifies_with_itself_without_binding() {
    let mut cache = cache_with(1);
    let result = try_unify(&var(0), &var(0), place(), &mut cache, TypeErrorKind::NeverShown);
    assert!(result.unwrap().bindings.is_empty());
}

#[test]
fn unified_types_agree_afterwards() {
    let mut cache = cache_with(3);
    let a = function(vec![var(0), boolean()], var(1));
    let list = apply(Type::UserDefined(TypeInfoId(7)), vec![var(0)]);
    let b = function(vec![character(), var(2)], list);
    unify(&a, &b, place(), &mut cache, TypeErrorKind::NeverShown);
    assert_eq!(cache.error_count(), 0);
    assert_eq!(resolved(&a, &cache), resolved(&b, &cache));
    assert_eq!(
        resolved(&a, &cache),
        function(
            vec![character(), boolean()],
            apply(Type::UserDefined(TypeInfoId(7)), vec![character()])
        )
    );
}

#[test]
fn unified_types_unify_again_without_binding() {
    let mut cache = cache_with(2);
    let a = function(vec![var(0)], var(1));
    let b = function(vec![boolean()], var(0));
    unify(&a, &b, place(), &mut cache, TypeErrorKind::NeverShown);
    let again = try_unify(&a, &b, place(), &mut cache, TypeErrorKind::NeverShown).unwrap();
    assert!(again.bindings.is_empty());
}

#[test]
fn the_occurs_check_refuses_infinite_types() {
    let mut cache = cache_with(2);
    assert!(!unified(&var(0), &function(vec![var(0)], boolean()), &mut cache));
    assert!(!unified(&apply(Type::UserDefined(TypeInfoId(0)), vec![var(0)]), &var(0), &mut cache));
    // Through a binding too.
    let list = apply(Type::UserDefined(TypeInfoId(0)), vec![var(0)]);
    unify(&var(1), &list, place(), &mut cache, TypeErrorKind::NeverShown);
    assert!(!unified(&var(0), &var(1), &mut cache));
}

#[test]
fn binding_a_variable_lowers_the_levels_inside_its_type() {
    let mut cache = cache_with(1);
    cache.current_level = LetBindingLevel(5);
    let inner = next_type_variable_id(&mut cache);
    unify(
        &var(0),
        &function(vec![Type::TypeVariable(inner)], boolean()),
        place(),
        &mut cache,
        TypeErrorKind::NeverShown,
    );
    assert!(matches!(
        cache.type_bindings[inner.0],
        TypeBinding::Unbound(LetBindingLevel(1), Kind(0))
    ));
}

#[test]
fn functions_unify_part_by_part() {
    let mut cache = cache_with(1);
    assert!(unified(
        &function(vec![boolean()], character()),
        &function(vec![boolean()], character()),
        &mut cache
    ));
    assert!(!unified(
        &function(vec![boolean()], character()),
        &function(vec![boolean()], boolean()),
        &mut cache
    ));
    assert!(!unified(
        &function(vec![boolean()], character()),
        &function(vec![boolean(), boolean()], character()),
        &mut cache
    ));
    assert!(!unified(&function(vec![boolean()], character()), &boolean(), &mut cache));
}

#[test]
fn a_variadic_function_takes_more_arguments() {
    let mut cache = cache_with(0);
    assert!(unified(
        &function(vec![boolean(), character()], Type::unit()),
        &varargs(vec![boolean()], Type::unit()),
        &mut cache
    ));
    assert!(unified(
        &varargs(vec![boolean()], Type::unit()),
        &function(vec![boolean(), character()], Type::unit()),
        &mut cache
    ));
    // But not fewer.
    assert!(!unified(
        &function(vec![], Type::unit()),
        &varargs(vec![boolean()], Type::unit()),
        &mut cache
    ));
}

#[test]
fn applications_and_references_unify_part_by_part() {
    let mut cache = cache_with(1);
    let list = Type::UserDefined(TypeInfoId(2));
    assert!(unified(
        &apply(list.clone(), vec![boolean()]),
        &apply(list.clone(), vec![boolean()]),
        &mut cache
    ));
    assert!(!unified(
        &apply(list.clone(), vec![boolean()]),
        &apply(list.clone(), vec![character()]),
        &mut cache
    ));
    assert!(!unified(
        &apply(list.clone(), vec![boolean()]),
        &apply(list.clone(), vec![boolean(), boolean()]),
        &mut cache
    ));
    assert!(!unified(
        &apply(list, vec![boolean()]),
        &apply(Type::UserDefined(TypeInfoId(3)), vec![boolean()]),
        &mut cache
    ));
    assert!(unified(&reference(TypeTag::Mutable), &reference(TypeTag::Mutable), &mut cache));
    assert!(!unified(&reference(TypeTag::Immutable), &reference(TypeTag::Mutable), &mut cache));
}

#[test]
fn a_mutable_reference_is_an_immutable_one() {
    let mut cache = cache_with(0);
    assert!(unified(&reference(TypeTag::Mutable), &reference(TypeTag::Immutable), &mut cache));
    assert!(unified(&Type::Tag(TypeTag::Owned), &Type::Tag(TypeTag::Shared), &mut cache));
    assert!(!unified(&Type::Tag(TypeTag::Shared), &Type::Tag(TypeTag::Owned), &mut cache));
    // The result of a function is looked at the other way round.
    let mutable = function(vec![], reference(TypeTag::Mutable));
    let immutable = function(vec![], reference(TypeTag::Immutable));
    assert!(!unified(&mutable, &immutable, &mut cache));
    assert!(unified(&immutable, &mutable, &mut cache));
}

#[test]
fn records_are_merged() {
    let mut cache = cache_with(4);
    let a = record(vec![field("x", boolean())], 0);
    let b = record(vec![field("y", var(2))], 1);
    unify(&a, &b, place(), &mut cache, TypeErrorKind::NeverShown);
    assert_eq!(cache.error_count(), 0);
    let both = vec![field("x", boolean()), field("y", var(2))];
    let ra = resolved(&a, &cache);
    let rb = resolved(&b, &cache);
    assert_eq!(ra, rb);
    match ra {
        Type::Struct(fields, _) => {
            assert_eq!(fields.len(), 2);
            for i in 0..2 {
                assert_eq!(fields[i].name, both[i].name);
                assert_eq!(fields[i].typ, both[i].typ);
            }
        }
        _ => panic!("a record stays a record"),
    }
}

#[test]
fn a_shared_field_must_have_one_type() {
    let mut cache = cache_with(2);
    let a = record(vec![field("x", boolean())], 0);
    let b = record(vec![field("x", character())], 1);
    assert!(!unified(&a, &b, &mut cache));
}

#[test]
fn a_record_fits_a_declared_struct_with_its_fields() {
    let mut cache = cache_with(3);
    cache.type_infos.push(TypeInfo {
        args: vec![],
        body: TypeInfoBody::Struct(vec![field("name", character()), field("age", boolean())]),
    });
    let declared = Type::UserDefined(TypeInfoId(0));
    unify(
        &declared,
        &record(vec![field("age", var(0))], 1),
        place(),
        &mut cache,
        TypeErrorKind::NeverShown,
    );
    assert_eq!(cache.error_count(), 0);
    assert_eq!(resolved(&var(0), &cache), boolean());
    assert!(!unified(&declared, &record(vec![field("height", boolean())], 2), &mut cache));
}

#[test]
fn a_record_fits_a_generic_struct_at_its_arguments() {
    let mut cache = cache_with(3);
    cache.type_infos.push(TypeInfo {
        args: vec![TypeVariableId(0)],
        body: TypeInfoBody::Struct(vec![field("item", var(0))]),
    });
    let applied = apply(Type::UserDefined(TypeInfoId(0)), vec![boolean()]);
    unify(
        &record(vec![field("item", var(1))], 2),
        &applied,
        place(),
        &mut cache,
        TypeErrorKind::NeverShown,
    );
    assert_eq!(cache.error_count(), 0);
    assert_eq!(resolved(&var(1), &cache), boolean());
}

#[test]
fn named_generics_unify_with_named_generics_alone() {
    let mut cache = cache_with(2);
    let a = Type::NamedGeneric(TypeVariableId(0), "a".to_string());
    let b = Type::NamedGeneric(TypeVariableId(1), "b".to_string());
    assert!(!unified(&a, &boolean(), &mut cache));
    assert!(!unified(&boolean(), &a, &mut cache));
    assert!(unified(&a, &a, &mut cache));
    let result = try_unify(&a, &b, place(), &mut cache, TypeErrorKind::NeverShown).unwrap();
    assert_eq!(result.bindings.get(&0), Some(&b));
    assert_eq!(result.bindings.len(), 1);
    result.perform(&mut cache);
    assert!(unified(&b, &a, &mut cache));
}

#[test]
fn rows_of_effects_grow_to_the_same_effects() {
    let mut cache = cache_with(2);
    let fail = Effect { id: EffectInfoId(0), args: vec![] };
    let emit = Effect { id: EffectInfoId(1), args: vec![boolean()] };
    let a = Type::Effects(EffectSet {
        effects: vec![fail.clone()],
        extension: Some(TypeVariableId(0)),
    });
    let b = Type::Effects(EffectSet {
        effects: vec![emit.clone()],
        extension: Some(TypeVariableId(1)),
    });
    unify(&a, &b, place(), &mut cache, TypeErrorKind::NeverShown);
    assert_eq!(cache.error_count(), 0);
    match (resolved(&a, &cache), resolved(&b, &cache)) {
        (Type::Effects(x), Type::Effects(y)) => {
            assert_eq!(x.effects, vec![fail.clone(), emit.clone()]);
            assert_eq!(y.effects, vec![emit, fail]);
            assert!(x.extension.is_some());
            assert_eq!(x.extension, y.extension);
        }
        _ => panic!("rows of effects stay rows of effects"),
    }
}

#[test]
fn a_closed_row_of_effects_takes_no_others() {
    let mut cache = cache_with(1);
    let fail = Effect { id: EffectInfoId(0), args: vec![] };
    let some = Type::Effects(EffectSet::only(vec![fail.clone()]));
    assert!(!unified(&some, &pure(), &mut cache));
    assert!(unified(&some, &some, &mut cache));
    let open = Type::Effects(EffectSet { effects: vec![], extension: Some(TypeVariableId(0)) });
    unify(&open, &some, place(), &mut cache, TypeErrorKind::NeverShown);
    assert_eq!(resolved(&open, &cache), some);
}

#[test]
fn a_mismatch_is_reported_with_both_types() {
    let mut cache = cache_with(1);
    unify(&boolean(), &character(), place(), &mut cache, TypeErrorKind::NonBoolInCondition);
    assert_eq!(cache.error_count(), 1);
    assert_eq!(cache.diagnostics[0].location, place());
    match &cache.diagnostics[0].kind {
        DiagnosticKind::TypeError(TypeErrorKind::NonBoolInCondition, actual, expected) => {
            assert_eq!(*actual, boolean());
            assert_eq!(*expected, character());
        }
        _ => panic!("a mismatch is a type error"),
    }
}

#[test]
fn a_report_keeps_the_bindings_of_its_moment() {
    let mut cache = cache_with(2);
    unify(&var(0), &boolean(), place(), &mut cache, TypeErrorKind::NeverShown);
    let a = apply(var(0), vec![var(1)]);
    unify(&a, &character(), place(), &mut cache, TypeErrorKind::NonBoolInCondition);
    assert_eq!(cache.error_count(), 1);
    // What is bound afterwards does not show.
    unify(&var(1), &character(), place(), &mut cache, TypeErrorKind::NeverShown);
    assert_eq!(resolved(&var(1), &cache), character());
    let shown = &cache.diagnostics[0].bindings;
    assert_eq!(shown.len(), 2);
    match &shown[0] {
        TypeBinding::Bound(typ) => assert_eq!(*typ, boolean()),
        _ => panic!("the variable was bound"),
    }
    assert!(matches!(shown[1], TypeBinding::Unbound(_, _)));
}

/// A function of plain types alone.
fn plain(parameters: Vec<Type>, return_type: Type) -> Type {
    Type::Function(FunctionType {
        parameters,
        return_type: Box::new(return_type),
        environment: Box::new(Type::unit()),
        effects: Box::new(Type::unit()),
        has_varargs: false,
    })
}

#[test]
fn a_solution_is_found_where_there_is_one() {
    let mut cache = cache_with(4);
    // From a -> [b] and [c] -> a, with b and c the same.
    let a = plain(vec![var(0)], apply(var(3), vec![var(1)]));
    let b = plain(vec![apply(var(3), vec![var(2)])], var(0));
    let found = try_unify(&a, &b, place(), &mut cache, TypeErrorKind::NeverShown).unwrap();
    // Nothing is bound that need not be: the constructor and one variable stay free.
    assert_eq!(found.bindings.len(), 2);
    found.perform(&mut cache);
    assert_eq!(resolved(&a, &cache), resolved(&b, &cache));
    assert!(matches!(cache.type_bindings[3], TypeBinding::Unbound(_, _)));
}

#[test]
fn nothing_is_left_to_do_after_unifying() {
    let mut cache = cache_with(3);
    let a = plain(vec![var(0), boolean()], apply(var(1), vec![var(2)]));
    let b = plain(vec![var(1), var(2)], var(0));
    unify(&a, &b, place(), &mut cache, TypeErrorKind::NeverShown);
    assert_eq!(cache.error_count(), 1);
    let c = plain(vec![var(0), boolean()], apply(character(), vec![var(2)]));
    unify(&c, &b, place(), &mut cache, TypeErrorKind::NeverShown);
    assert_eq!(cache.error_count(), 1);
    let again = try_unify(&c, &b, place(), &mut cache, TypeErrorKind::NeverShown).unwrap();
    assert!(again.bindings.is_empty() && again.level_bindings.is_empty());
    let reversed = try_unify(&b, &c, place(), &mut cache, TypeErrorKind::NeverShown).unwrap();
    assert!(reversed.bindings.is_empty() && reversed.level_bindings.is_empty());
}

#[test]
fn no_binding_leads_back_to_its_variable() {
    let mut cache = cache_with(3);
    let list = |t: Type| apply(Type::UserDefined(TypeInfoId(9)), vec![t]);
    unify(&var(0), &list(var(1)), place(), &mut cache, TypeErrorKind::NeverShown);
    unify(&var(1), &list(var(2)), place(), &mut cache, TypeErrorKind::NeverShown);
    assert!(!unified(&var(2), &var(0), &mut cache));
    assert!(!unified(&list(var(0)), &var(2), &mut cache));
    assert_eq!(resolved(&var(0), &cache), list(list(var(2))));
}

#[test]
fn all_pairs_need_one_solution() {
    let mut cache = cache_with(2);
    let xs = vec![var(0), var(0)];
    let ok = vec![var(1), boolean()];
    let found = try_unify_all_hide_error(&xs, &ok, &mut cache).unwrap();
    found.perform(&mut cache);
    assert_eq!(resolved(&var(1), &cache), boolean());
    assert!(try_unify_all_hide_error(&xs, &[boolean(), character()], &mut cache).is_err());
    assert!(try_unify_all_hide_error(&[], &[], &mut cache).unwrap().bindings.is_empty());
}

#[test]
fn earlier_bindings_stay_when_an_error_follows() {
    let mut cache = cache_with(2);
    let mut bindings = UnificationBindings::empty();
    assert!(try_unify_with_bindings_inner(
        &var(0),
        &boolean(),
        &mut bindings,
        place(),
        &mut cache
    )
    .is_ok());
    let a = plain(vec![var(1)], character());
    let b = plain(vec![var(0)], boolean());
    assert!(try_unify_with_bindings_inner(&a, &b, &mut bindings, place(), &mut cache).is_err());
    assert_eq!(bindings.bindings.get(&0), Some(&boolean()));
}

#[test]
fn a_report_shows_the_types_as_they_were_given() {
    let mut cache = cache_with(1);
    let a = function(vec![var(0)], var(0));
    let b = function(vec![boolean()], character());
    let result = try_unify(&a, &b, place(), &mut cache, TypeErrorKind::ArgumentTypeMismatch);
    match result {
        Err(diagnostic) => match diagnostic.kind {
            DiagnosticKind::TypeError(TypeErrorKind::ArgumentTypeMismatch, actual, expected) => {
                assert_eq!(actual, a);
                assert_eq!(expected, b);
            }
            _ => panic!("a mismatch is a type error"),
        },
        Ok(_) => panic!("the return types differ"),
    }
}

#[test]
fn lists_of_types_unify_in_order() {
    let mut cache = cache_with(2);
    let bindings = try_unify_all_with_bindings(
        &[var(0), var(1)],
        &[boolean(), var(0)],
        UnificationBindings::empty(),
        place(),
        &mut cache,
        TypeErrorKind::NeverShown,
    )
    .unwrap();
    bindings.perform(&mut cache);
    assert_eq!(resolved(&var(1), &cache), boolean());
}

#[test]
fn lists_of_different_lengths_do_not_unify() {
    let mut cache = cache_with(1);
    let result = try_unify_all_with_bindings(
        &[boolean()],
        &[boolean(), character()],
        UnificationBindings::empty(),
        place(),
        &mut cache,
        TypeErrorKind::NeverShown,
    );
    match result {
        Err(diagnostic) => match diagnostic.kind {
            DiagnosticKind::TypeLengthMismatch(actual, expected) => {
                assert_eq!(actual, vec![boolean()]);
                assert_eq!(expected, vec![boolean(), character()]);
            }
            _ => panic!("the lengths differ"),
        },
        Ok(_) => panic!("the lengths differ"),
    }
    assert!(try_unify_all_hide_error(&[boolean()], &[], &mut cache).is_err());
    assert!(try_unify_all_hide_error(&[boolean()], &[var(0)], &mut cache).is_ok());
    assert!(try_unify_all_hide_error(&[boolean()], &[character()], &mut cache).is_err());
}

#[test]
fn bindings_are_performed_or_the_error_is_reported() {
    let mut cache = cache_with(1);
    let good = try_unify(&var(0), &boolean(), place(), &mut cache, TypeErrorKind::NeverShown);
    perform_bindings_or_push_error(good, &mut cache);
    assert_eq!(cache.error_count(), 0);
    assert_eq!(resolved(&var(0), &cache), boolean());
    let bad = try_unify(&var(0), &character(), place(), &mut cache, TypeErrorKind::NeverShown);
    perform_bindings_or_push_error(bad, &mut cache);
    assert_eq!(cache.error_count(), 1);
}

#[test]
fn bindings_found_before_are_taken_into_account() {
    let mut cache = cache_with(2);
    let mut bindings = UnificationBindings::empty();
    assert!(try_unify_with_bindings(
        &var(0),
        &boolean(),
        &mut bindings,
        place(),
        &mut cache,
        TypeErrorKind::NeverShown
    )
    .is_ok());
    assert!(try_unify_with_bindings_inner(&var(0), &var(1), &mut bindings, place(), &mut cache)
        .is_ok());
    assert_eq!(bindings.bindings.get(&1), Some(&boolean()));
    assert!(try_unify_with_bindings_inner(
        &var(1),
        &character(),
        &mut bindings,
        place(),
        &mut cache
    )
    .is_err());
}

#[test]
fn a_variable_unifies_from_either_side() {
    let mut cache = cache_with(1);
    let mut bindings = UnificationBindings::empty();
    assert!(try_unify_type_variable_with_bindings(
        TypeVariableId(0),
        &var(0),
        &boolean(),
        false,
        &mut bindings,
        place(),
        &mut cache
    )
    .is_ok());
    assert!(has_binding(TypeVariableId(0), &bindings, &cache));
    match find_binding(TypeVariableId(0), &bindings, &cache) {
        TypeBinding::Bound(t) => assert_eq!(t, boolean()),
        TypeBinding::Unbound(_, _) => panic!("the variable was bound"),
    }
    assert_eq!(follow_bindings_in_cache_and_map(&var(0), &bindings, &cache), boolean());
    assert_eq!(follow_bindings_in_cache(&var(0), &cache), var(0));
}

#[test]
fn following_ends_at_what_is_not_bound() {
    let mut cache = cache_with(3);
    cache.bind(TypeVariableId(0), var(1));
    cache.bind(TypeVariableId(1), var(2));
    assert_eq!(follow_bindings_in_cache(&var(0), &cache), var(2));
    let end = follow_bindings_in_cache(&var(0), &cache);
    assert_eq!(follow_bindings_in_cache(&end, &cache), end);
    assert_eq!(follow_bindings_in_cache(&boolean(), &cache), boolean());
}

#[test]
fn an_unknown_variable_gives_no_result() {
    let mut cache = cache_with(0);
    assert!(unify_or_report(&var(9), &boolean(), place(), &mut cache, TypeErrorKind::NeverShown)
        .is_none());
    let mut bindings = UnificationBindings::empty();
    let f = function(vec![], boolean());
    assert!(unify_at(1, &f, &f, &mut bindings, &mut cache).is_none());
    // Once there is a result, more depth does not change it.
    for depth in 2..9 {
        assert_eq!(unify_at(depth, &f, &f, &mut bindings, &mut cache), Some(Ok(())));
        assert_eq!(
            unify_at(depth, &f, &function(vec![], character()), &mut bindings, &mut cache),
            Some(Err(()))
        );
    }
}

#[test]
fn arguments_bind_the_variables_of_a_type() {
    let mut cache = cache_with(3);
    cache.bind(TypeVariableId(2), boolean());
    let info = TypeInfo {
        args: vec![TypeVariableId(0), TypeVariableId(1)],
        body: TypeInfoBody::Union,
    };
    let bindings = type_application_bindings(&info, &[character(), var(2)], &cache);
    assert_eq!(bindings.len(), 2);
    assert_eq!(bindings.get(&0), Some(&character()));
    assert_eq!(bindings.get(&1), Some(&boolean()));
    // An argument that is the variable itself binds nothing.
    assert!(type_application_bindings(&info, &[var(0), var(1)], &cache).is_empty());
}

#[test]
fn later_bindings_extend_earlier_ones() {
    let mut first = UnificationBindings::empty();
    first.bindings.insert(0, boolean());
    first.level_bindings.push((TypeVariableId(4), LetBindingLevel(2)));
    let mut second = UnificationBindings::empty();
    second.bindings.insert(1, character());
    second.level_bindings.push((TypeVariableId(5), LetBindingLevel(3)));
    first.extend(second);
    assert_eq!(first.bindings.len(), 2);
    assert_eq!(first.bindings.get(&0), Some(&boolean()));
    assert_eq!(first.bindings.get(&1), Some(&character()));
    assert_eq!(
        first.level_bindings,
        vec![(TypeVariableId(4), LetBindingLevel(2)), (TypeVariableId(5), LetBindingLevel(3))]
    );
}

#[test]
fn performing_bindings_takes_the_lowest_level() {
    let mut cache = cache_with(0);
    cache.current_level = LetBindingLevel(9);
    let a = next_type_variable_id(&mut cache);
    let b = next_type_variable_id(&mut cache);
    let mut bindings = UnificationBindings::empty();
    bindings.bindings.insert(b.0, Type::integer(IntegerKind::I32));
    bindings.level_bindings.push((a, LetBindingLevel(4)));
    bindings.level_bindings.push((a, LetBindingLevel(6)));
    bindings.perform(&mut cache);
    assert!(matches!(cache.type_bindings[a.0], TypeBinding::Unbound(LetBindingLevel(4), _)));
    match &cache.type_bindings[b.0] {
        TypeBinding::Bound(t) => assert_eq!(*t, Type::integer(IntegerKind::I32)),
        TypeBinding::Unbound(_, _) => panic!("the variable was bound"),
    }
}

fn names_of(t: &Type) -> Vec<String> {
    match t {
        Type::Struct(fields, _) => {
            let mut names = vec![];
            for field in fields {
                names.push(field.name.clone());
            }
            names
        }
        _ => panic!("a record stays a record"),
    }
}

#[test]
fn merged_records_have_their_fields_in_order() {
    let mut cache = cache_with(6);
    let a = record(vec![field("b", boolean()), field("d", var(2))], 0);
    let b = record(
        vec![field("a", var(3)), field("b", var(4)), field("c", boolean()), field("e", var(5))],
        1,
    );
    unify(&a, &b, place(), &mut cache, TypeErrorKind::NeverShown);
    assert_eq!(cache.error_count(), 0);
    let expected: Vec<String> = vec![
        "a".to_string(),
        "b".to_string(),
        "c".to_string(),
        "d".to_string(),
        "e".to_string(),
    ];
    assert_eq!(names_of(&resolved(&a, &cache)), expected);
    assert_eq!(names_of(&resolved(&b, &cache)), expected);
    // What the cache binds a variable to is in order as well.
    match &cache.type_bindings[1] {
        TypeBinding::Bound(t) => assert_eq!(names_of(t), expected),
        TypeBinding::Unbound(_, _) => panic!("the end of the row was bound"),
    }
}

#[test]
fn unifying_without_rows_adds_only_bindings_of_unbound_variables() {
    let mut cache = cache_with(4);
    cache.bind(TypeVariableId(0), boolean());
    let count = cache.type_bindings.len();
    let mut bindings = UnificationBindings::empty();
    bindings.bindings.insert(1, character());
    // The last pair does not unify: what was bound before it stays.
    let a = function(vec![var(0), var(1), var(2)], boolean());
    let b = function(vec![boolean(), character(), var(3)], character());
    assert!(try_unify_with_bindings_inner(&a, &b, &mut bindings, place(), &mut cache).is_err());
    assert_eq!(cache.type_bindings.len(), count);
    assert_eq!(bindings.bindings.get(&0), None);
    assert_eq!(bindings.bindings.get(&1), Some(&character()));
    assert_eq!(bindings.bindings.get(&2), Some(&var(3)));
    assert_eq!(bindings.bindings.len(), 2);
    match &cache.type_bindings[0] {
        TypeBinding::Bound(t) => assert_eq!(*t, boolean()),
        TypeBinding::Unbound(_, _) => panic!("the cache is left alone"),
    }
    assert!(matches!(&cache.type_bindings[2], TypeBinding::Unbound(_, _)));
}
