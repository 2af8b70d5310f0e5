use std::collections::HashMap;
use typechecker::cache::{
    Callsite, ConstraintSignature, DefinitionInfo, DefinitionInfoId, DefinitionKind, DiagnosticKind,
    EffectInfo, GeneralizedType, ImplScopeId, Location, ModuleCache, RequiredTrait,
    TraitConstraintId, TraitInfoId, TypeErrorKind, VariableId,
};
use typechecker::declarations::{Declaration, EffectDefinition, Extern, TraitDefinition};
use typechecker::definitions::{
    begin_nested_definition, bind_closure_environment, end_nested_definition, finish_pattern,
    infer_closure_environment, initialize_function_type, mark_id_finished, mark_id_in_progress,
    mark_pattern_ids_in_progress, resume_environment_type, Capture,
};
use typechecker::impls::inject_effect;
use typechecker::patterns::{
    bind_irrefutable_pattern, foreach_variable, get_pattern_type, NoPattern, Pattern,
    PatternAnnotation, PatternCall, PatternLiteral, PatternVariable, PatternVisit,
};
use typechecker::results::{make_tuple_type, PAIR_TYPE};
use typechecker::subst::{bind_at, next_type_variable};
use typechecker::tree::Inferable;
use typechecker::types::{
    Effect, EffectInfoId, EffectSet, FunctionType, LetBindingLevel, PrimitiveType, Type, TypeInfoId,
    TypeVariableId,
};

fn at(start: usize) -> Location {
    Location { file: 1, start, end: start + 1 }
}

fn var(id: usize) -> Type {
    Type::TypeVariable(TypeVariableId(id))
}

fn boolean() -> Type {
    Type::Primitive(PrimitiveType::BooleanType)
}

fn character() -> Type {
    Type::Primitive(PrimitiveType::CharType)
}

fn pair(a: Type, b: Type) -> Type {
    Type::TypeApplication(Box::new(Type::UserDefined(TypeInfoId(PAIR_TYPE))), vec![a, b])
}

fn function(parameters: Vec<Type>, return_type: Type) -> Type {
    Type::Function(FunctionType {
        parameters,
        return_type: Box::new(return_type),
        environment: Box::new(Type::unit()),
        effects: Box::new(Type::Effects(EffectSet::only(vec![]))),
        has_varargs: false,
    })
}

fn variable(id: usize) -> Pattern {
    Pattern::Variable(PatternVariable {
        name: "x".to_string(),
        definition: Some(DefinitionInfoId(id)),
        impl_scope: Some(ImplScopeId(0)),
        location: at(id),
        typ: None,
    })
}

fn literal(is_unit: bool) -> Pattern {
    Pattern::Literal(PatternLiteral { is_unit, location: at(30), typ: None })
}

fn annotated(lhs: Pattern, typ: Type) -> Pattern {
    Pattern::TypeAnnotation(PatternAnnotation {
        lhs: Box::new(lhs),
        typ: Some(typ),
        location: at(31),
    })
}

fn call(is_pair_constructor: bool, args: Vec<Pattern>) -> Pattern {
    Pattern::FunctionCall(PatternCall {
        is_pair_constructor,
        args,
        function_type: None,
        typ: None,
        location: at(32),
    })
}

fn other() -> Pattern {
    Pattern::Other(NoPattern { location: at(33), typ: None })
}

fn definition() -> DefinitionInfo {
    DefinitionInfo {
        name: "x".to_string(),
        definition: None,
        typ: None,
        required_traits: vec![],
        trait_info: None,
        undergoing_type_inference: false,
        mutable: false,
    }
}

fn cache_with(definitions: usize, variables: usize) -> ModuleCache {
    let mut cache = ModuleCache::new();
    for _ in 0..definitions {
        cache.definition_infos.push(definition());
    }
    for _ in 0..variables {
        next_type_variable(&mut cache);
    }
    cache
}

fn resolved(t: &Type, cache: &ModuleCache) -> Type {
    bind_at(1000, t, &HashMap::new(), cache).unwrap()
}

fn monotype(id: usize, cache: &ModuleCache) -> Type {
    match &cache.definition_infos[id].typ {
        Some(GeneralizedType::MonoType(t)) => resolved(t, cache),
        _ => panic!("the definition has a monotype"),
    }
}

fn required(id: usize) -> RequiredTrait {
    RequiredTrait {
        signature: ConstraintSignature {
            trait_id: TraitInfoId(0),
            args: vec![],
            id: TraitConstraintId(id),
        },
        callsite: Callsite::Direct(VariableId(0)),
    }
}

#[test]
fn a_variable_gets_the_type_and_the_required_traits() {
    let mut cache = cache_with(1, 0);
    let mut pattern = variable(0);
    assert!(bind_irrefutable_pattern(&mut pattern, &boolean(), &[required(4)], false, &mut cache)
        .is_some());
    assert_eq!(monotype(0, &cache), boolean());
    assert_eq!(cache.definition_infos[0].required_traits.len(), 1);
    assert_eq!(
        cache.definition_infos[0].required_traits[0].signature.id,
        TraitConstraintId(4)
    );
    assert_eq!(pattern.get_type(), Some(&boolean()));
}

#[test]
fn a_variable_keeps_the_type_it_was_declared_at() {
    let mut cache = cache_with(1, 0);
    cache.definition_infos[0].typ = Some(GeneralizedType::MonoType(boolean()));
    bind_irrefutable_pattern(&mut variable(0), &character(), &[], false, &mut cache);
    assert_eq!(cache.error_count(), 1);
    assert!(matches!(
        cache.diagnostics[0].kind,
        DiagnosticKind::TypeError(TypeErrorKind::VariableDoesNotMatchDeclaredType, _, _)
    ));
}

#[test]
fn a_variable_is_generalized_if_asked_for_or_if_it_was() {
    let mut cache = cache_with(2, 1);
    let t = function(vec![var(0)], var(0));
    bind_irrefutable_pattern(&mut variable(0), &t, &[], true, &mut cache);
    assert!(matches!(
        &cache.definition_infos[0].typ,
        Some(GeneralizedType::PolyType(vars, _)) if *vars == vec![TypeVariableId(0)]
    ));
    // A polytype does not become a monotype.
    bind_irrefutable_pattern(&mut variable(0), &t, &[], false, &mut cache);
    assert!(matches!(&cache.definition_infos[0].typ, Some(GeneralizedType::PolyType(_, _))));
}

#[test]
fn a_unit_pattern_is_of_type_unit() {
    let mut cache = cache_with(0, 1);
    bind_irrefutable_pattern(&mut literal(true), &var(0), &[], false, &mut cache);
    assert_eq!(resolved(&var(0), &cache), Type::unit());
    bind_irrefutable_pattern(&mut literal(true), &boolean(), &[], false, &mut cache);
    assert!(matches!(
        cache.diagnostics[0].kind,
        DiagnosticKind::TypeError(TypeErrorKind::ExpectedUnitTypeFromPattern, _, _)
    ));
}

#[test]
fn patterns_that_may_fail_are_reported() {
    let mut cache = cache_with(1, 0);
    bind_irrefutable_pattern(&mut literal(false), &boolean(), &[], false, &mut cache);
    bind_irrefutable_pattern(&mut other(), &boolean(), &[], false, &mut cache);
    let mut applied = call(false, vec![variable(0)]);
    bind_irrefutable_pattern(&mut applied, &boolean(), &[], false, &mut cache);
    assert_eq!(cache.error_count(), 3);
    assert!(matches!(cache.diagnostics[0].kind, DiagnosticKind::PatternIsNotIrrefutable));
    assert!(matches!(cache.diagnostics[1].kind, DiagnosticKind::InvalidSyntaxInIrrefutablePattern));
    assert_eq!(cache.diagnostics[1].location, at(33));
    assert!(matches!(cache.diagnostics[2].kind, DiagnosticKind::InvalidSyntaxInIrrefutablePattern));
    assert_eq!(cache.diagnostics[2].location, at(32));
}

#[test]
fn an_annotation_is_checked() {
    let mut cache = cache_with(1, 1);
    bind_irrefutable_pattern(
        &mut annotated(variable(0), boolean()),
        &var(0),
        &[],
        false,
        &mut cache,
    );
    assert_eq!(monotype(0, &cache), boolean());
    bind_irrefutable_pattern(
        &mut annotated(variable(0), character()),
        &boolean(),
        &[],
        false,
        &mut cache,
    );
    assert!(matches!(
        cache.diagnostics[0].kind,
        DiagnosticKind::TypeError(TypeErrorKind::PatternTypeDoesNotMatchAnnotatedType, _, _)
    ));
}

#[test]
fn a_pair_pattern_takes_a_pair_apart() {
    let mut cache = cache_with(2, 0);
    let mut pattern = call(true, vec![variable(0), variable(1)]);
    bind_irrefutable_pattern(&mut pattern, &pair(boolean(), character()), &[], false, &mut cache);
    assert_eq!(cache.error_count(), 0);
    assert_eq!(monotype(0, &cache), boolean());
    assert_eq!(monotype(1, &cache), character());
    assert_eq!(
        resolved(pattern.get_type().unwrap(), &cache),
        pair(boolean(), character())
    );
    let mut single = call(true, vec![variable(0)]);
    bind_irrefutable_pattern(&mut single, &boolean(), &[], false, &mut cache);
    assert!(matches!(
        cache.diagnostics[0].kind,
        DiagnosticKind::TypeError(TypeErrorKind::ExpectedPairTypeFromPattern, _, _)
    ));
}

#[test]
fn what_is_known_of_a_pattern_is_its_type() {
    let mut cache = cache_with(2, 0);
    cache.definition_infos[1].typ = Some(GeneralizedType::MonoType(character()));
    assert_eq!(get_pattern_type(&literal(true), &mut cache), Some(Some(Type::unit())));
    assert_eq!(get_pattern_type(&literal(false), &mut cache), Some(None));
    assert_eq!(get_pattern_type(&other(), &mut cache), Some(None));
    assert_eq!(get_pattern_type(&variable(0), &mut cache), Some(Some(var(0))));
    assert_eq!(
        get_pattern_type(&annotated(variable(0), boolean()), &mut cache),
        Some(Some(boolean()))
    );
    assert_eq!(
        get_pattern_type(&call(true, vec![variable(1), literal(true)]), &mut cache),
        Some(Some(pair(character(), Type::unit())))
    );
    assert_eq!(get_pattern_type(&call(true, vec![variable(1)]), &mut cache), Some(None));
    // The type of a polymorphic definition cannot be that of a pattern.
    cache.definition_infos[1].typ = Some(GeneralizedType::PolyType(vec![], boolean()));
    assert_eq!(get_pattern_type(&variable(1), &mut cache), None);
}

#[test]
fn the_variables_of_a_pattern_are_met_from_left_to_right() {
    let pattern = call(true, vec![annotated(variable(1), boolean()), other(), variable(0)]);
    let found = foreach_variable(&pattern);
    assert_eq!(found.len(), 3);
    assert!(matches!(
        &found[0],
        PatternVisit::Variable { definition: Some(DefinitionInfoId(1)), .. }
    ));
    assert!(matches!(&found[1], PatternVisit::Invalid(location) if *location == at(33)));
    assert!(matches!(
        &found[2],
        PatternVisit::Variable { definition: Some(DefinitionInfoId(0)), .. }
    ));
}

#[test]
fn a_marked_definition_has_a_type_to_refer_to() {
    let mut cache = cache_with(2, 0);
    assert!(mark_id_in_progress(DefinitionInfoId(1), &mut cache).is_some());
    assert_eq!(cache.call_stack, vec![DefinitionInfoId(1)]);
    assert!(cache.definition_infos[1].undergoing_type_inference);
    assert_eq!(monotype(1, &cache), var(0));
    assert!(mark_id_finished(DefinitionInfoId(1), false, &mut cache).is_some());
    assert!(cache.call_stack.is_empty());
    assert!(!cache.definition_infos[1].undergoing_type_inference);
    assert!(mark_id_in_progress(DefinitionInfoId(2), &mut cache).is_none());
}

#[test]
fn a_mutually_recursive_definition_stays_marked() {
    let mut cache = cache_with(2, 0);
    let pattern = call(true, vec![variable(0), variable(1)]);
    mark_pattern_ids_in_progress(&pattern, &mut cache).unwrap();
    assert_eq!(cache.call_stack, vec![DefinitionInfoId(0), DefinitionInfoId(1)]);
    finish_pattern(&pattern, &[DefinitionInfoId(1)], &mut cache).unwrap();
    assert!(cache.call_stack.is_empty());
    assert!(!cache.definition_infos[0].undergoing_type_inference);
    assert!(cache.definition_infos[1].undergoing_type_inference);
}

#[test]
fn a_nested_definition_is_marked_unless_it_marks_itself() {
    let mut cache = cache_with(2, 0);
    cache.definition_infos[0].definition = Some(DefinitionKind::Definition);
    cache.definition_infos[1].definition = Some(DefinitionKind::Parameter);
    assert!(matches!(
        begin_nested_definition(DefinitionInfoId(0), &mut cache),
        Some(DefinitionKind::Definition)
    ));
    assert!(cache.call_stack.is_empty());
    assert!(matches!(
        begin_nested_definition(DefinitionInfoId(1), &mut cache),
        Some(DefinitionKind::Parameter)
    ));
    assert_eq!(cache.call_stack, vec![DefinitionInfoId(1)]);
    cache.definition_infos[1].required_traits.push(required(6));
    let (typ, traits) = end_nested_definition(
        DefinitionInfoId(1),
        DefinitionKind::Parameter,
        vec![],
        false,
        ImplScopeId(2),
        VariableId(3),
        &mut cache,
    )
    .unwrap();
    assert!(cache.call_stack.is_empty());
    assert_eq!(typ.into_monotype(), var(0));
    assert_eq!(traits.len(), 1);
    assert_eq!(traits[0].scope, ImplScopeId(2));
}

#[test]
fn captured_variables_get_the_types_of_what_they_capture() {
    let mut cache = cache_with(4, 1);
    cache.definition_infos[0].typ =
        Some(GeneralizedType::PolyType(vec![TypeVariableId(0)], function(vec![var(0)], var(0))));
    cache.definition_infos[1].typ = Some(GeneralizedType::MonoType(boolean()));
    let mut environment = vec![];
    for i in 0..2 {
        environment.push(Capture {
            from: DefinitionInfoId(i),
            to: DefinitionInfoId(i + 2),
            bindings: HashMap::new(),
        });
    }
    bind_closure_environment(&mut environment, &mut cache).unwrap();
    // What is captured is an instance of the type.
    assert_eq!(monotype(2, &cache), function(vec![var(1)], var(1)));
    assert_eq!(environment[0].bindings.get(&0), Some(&var(1)));
    assert_eq!(monotype(3, &cache), boolean());
    assert_eq!(
        infer_closure_environment(&environment, &cache),
        Some(pair(function(vec![var(1)], var(1)), boolean()))
    );
    assert_eq!(infer_closure_environment(&vec![], &cache), Some(Type::unit()));
}

#[test]
fn tuples_are_nested_pairs() {
    assert_eq!(
        make_tuple_type(vec![boolean(), character(), Type::unit()]),
        pair(boolean(), pair(character(), Type::unit()))
    );
}

#[test]
fn the_environment_of_a_resumption_starts_with_the_continuation() {
    let continuation = Type::TypeApplication(
        Box::new(Type::Primitive(PrimitiveType::Ptr)),
        vec![Type::unit()],
    );
    assert_eq!(resume_environment_type(vec![]), continuation);
    assert_eq!(
        resume_environment_type(vec![
            (DefinitionInfoId(3), boolean()),
            (DefinitionInfoId(5), character())
        ]),
        pair(continuation, pair(boolean(), character()))
    );
}

#[test]
fn a_function_starts_with_what_its_parameters_say() {
    let mut cache = cache_with(2, 0);
    let parameters = vec![annotated(variable(1), boolean()), literal(true)];
    initialize_function_type(&variable(0), &parameters, Some(&character()), &mut cache).unwrap();
    match monotype(0, &cache) {
        Type::Function(f) => {
            assert_eq!(f.parameters, vec![boolean(), Type::unit()]);
            assert_eq!(*f.return_type, character());
            assert_eq!(*f.environment, var(0));
            assert_eq!(*f.effects, var(1));
        }
        _ => panic!("a function has a function type"),
    }
    // A type that is known already is not replaced, and nothing is said where a parameter is not
    // known.
    initialize_function_type(&variable(0), &vec![], None, &mut cache).unwrap();
    assert!(matches!(monotype(0, &cache), Type::Function(f) if f.parameters.len() == 2));
    initialize_function_type(&variable(1), &vec![other()], None, &mut cache).unwrap();
    assert!(cache.definition_infos[1].typ.is_none());
}

#[test]
fn declared_functions_are_generic() {
    let mut cache = cache_with(2, 0);
    cache.current_level = LetBindingLevel(2);
    next_type_variable(&mut cache);
    cache.current_level = LetBindingLevel(1);
    let declare = |id: usize, typ: Type| Declaration { lhs: variable(id), typ: Some(typ) };
    let mut node = TraitDefinition {
        declarations: vec![declare(0, function(vec![var(0)], boolean()))],
        level: Some(LetBindingLevel(2)),
        location: at(40),
        typ: None,
    };
    assert_eq!(node.infer_impl(&mut cache).unwrap().typ, Type::unit());
    assert!(matches!(
        &cache.definition_infos[0].typ,
        Some(GeneralizedType::PolyType(vars, _)) if *vars == vec![TypeVariableId(0)]
    ));
    assert_eq!(cache.current_level, LetBindingLevel(1));
    let mut node = Extern {
        declarations: vec![declare(1, character())],
        level: Some(LetBindingLevel(2)),
        location: at(41),
        typ: None,
    };
    assert_eq!(node.infer_impl(&mut cache).unwrap().typ, Type::unit());
    assert_eq!(monotype(1, &cache), character());
    assert_eq!(cache.current_level, LetBindingLevel(1));
}

#[test]
fn the_functions_of_an_effect_have_that_effect() {
    let mut cache = cache_with(1, 0);
    cache.current_level = LetBindingLevel(2);
    next_type_variable(&mut cache);
    cache.current_level = LetBindingLevel(1);
    cache.effect_infos.push(EffectInfo { typeargs: vec![TypeVariableId(0)] });
    let mut node = EffectDefinition {
        declarations: vec![Declaration {
            lhs: variable(0),
            typ: Some(function(vec![var(0)], Type::unit())),
        }],
        effect_info: Some(EffectInfoId(0)),
        level: Some(LetBindingLevel(2)),
        location: at(42),
        typ: None,
    };
    assert_eq!(node.infer_impl(&mut cache).unwrap().typ, Type::unit());
    match &cache.definition_infos[0].typ {
        Some(GeneralizedType::PolyType(vars, Type::Function(f))) => {
            assert_eq!(*vars, vec![TypeVariableId(0)]);
            let own = Effect { id: EffectInfoId(0), args: vec![var(0)] };
            assert_eq!(*f.effects, Type::Effects(EffectSet::only(vec![own])));
        }
        _ => panic!("the function is generic"),
    }
}

#[test]
fn an_effect_is_added_once_and_to_functions_only() {
    let mut cache = cache_with(2, 0);
    let own = Effect { id: EffectInfoId(0), args: vec![] };
    cache.definition_infos[0].typ =
        Some(GeneralizedType::MonoType(function(vec![], boolean())));
    inject_effect(DefinitionInfoId(0), own.clone(), &mut cache).unwrap();
    inject_effect(DefinitionInfoId(0), own.clone(), &mut cache).unwrap();
    match monotype(0, &cache) {
        Type::Function(f) => {
            assert_eq!(*f.effects, Type::Effects(EffectSet::only(vec![own.clone()])));
        }
        _ => panic!("a function stays one"),
    }
    cache.definition_infos[1].typ = Some(GeneralizedType::MonoType(boolean()));
    assert!(inject_effect(DefinitionInfoId(1), own, &mut cache).is_none());
}
