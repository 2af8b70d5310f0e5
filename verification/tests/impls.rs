use std::collections::HashMap;
use typechecker::cache::{
    Callsite, ConstraintSignature, DefinitionInfo, DefinitionInfoId, Diagnostic, DiagnosticKind,
    GeneralizedType, ImplInfo, ImplInfoId, ImplScopeId, Location, ModuleCache, RequiredTrait,
    TraitConstraint, TraitConstraintId, TraitInfo, TraitInfoId, TypeErrorKind, VariableId,
};
use typechecker::expressions::Literal;
use typechecker::impl_steps::{BegunImpl, ImplAction, ImplEvent};
use typechecker::impls::{
    bind_irrefutable_pattern_in_impl, check_impl_propagated_traits, find_matching_trait,
    lookup_definition_traits_in_trait, lookup_definition_type_in_trait, BindingTodo, CheckTodo,
};
use typechecker::patterns::{NoPattern, Pattern, PatternVariable};
use typechecker::programs::TraitImpl;
use typechecker::rules::{issue_argument_types_error, try_unwrap_functions};
use typechecker::subst::next_type_variable;
use typechecker::tree::LiteralKind;
use typechecker::types::{EffectSet, FunctionType, PrimitiveType, Type, TypeVariableId};
use typechecker::values::Definition;

fn at(start: usize) -> Location {
    Location { file: 1, start, end: start + 1 }
}

fn var(id: usize) -> Type {
    Type::TypeVariable(TypeVariableId(id))
}

fn boolean() -> Type {
    Type::Primitive(PrimitiveType::BooleanType)
}

fn character() -> Type {
    Type::Primitive(PrimitiveType::CharType)
}

fn function(parameters: Vec<Type>, environment: Type) -> FunctionType {
    FunctionType {
        parameters,
        return_type: Box::new(boolean()),
        environment: Box::new(environment),
        effects: Box::new(Type::Effects(EffectSet::only(vec![]))),
        has_varargs: false,
    }
}

fn signature(trait_id: usize, args: Vec<Type>, id: usize) -> ConstraintSignature {
    ConstraintSignature { trait_id: TraitInfoId(trait_id), args, id: TraitConstraintId(id) }
}

fn required(trait_id: usize, args: Vec<Type>, id: usize) -> RequiredTrait {
    RequiredTrait {
        signature: signature(trait_id, args, id),
        callsite: Callsite::Direct(VariableId(0)),
    }
}

fn definition(name: &str) -> DefinitionInfo {
    DefinitionInfo {
        name: name.to_string(),
        definition: None,
        typ: None,
        required_traits: vec![],
        trait_info: None,
        undergoing_type_inference: false,
        mutable: false,
    }
}

fn named(name: &str, id: usize) -> Pattern {
    Pattern::Variable(PatternVariable {
        name: name.to_string(),
        definition: Some(DefinitionInfoId(id)),
        impl_scope: Some(ImplScopeId(7)),
        location: at(id),
        typ: None,
    })
}

/// A trait of one variable, whose member `show` is definition 0. Definition 1 implements it.
fn cache_with_trait() -> ModuleCache {
    let mut cache = ModuleCache::new();
    next_type_variable(&mut cache);
    cache.definition_infos.push(definition("show"));
    cache.definition_infos.push(definition("show"));
    cache.trait_infos.push(TraitInfo {
        typeargs: vec![TypeVariableId(0)],
        fundeps: vec![],
        definitions: vec![DefinitionInfoId(0)],
    });
    cache
}

#[test]
fn the_type_of_a_member_is_known_once_the_trait_was_inferred() {
    let mut cache = cache_with_trait();
    let show = "show".to_string();
    assert!(matches!(lookup_definition_type_in_trait(&show, TraitInfoId(0), &cache), Some(None)));
    assert!(matches!(lookup_definition_traits_in_trait(&show, TraitInfoId(0), &cache), Some(None)));
    cache.definition_infos[0].typ = Some(GeneralizedType::MonoType(var(0)));
    cache.definition_infos[0].required_traits.push(required(3, vec![], 9));
    match lookup_definition_type_in_trait(&show, TraitInfoId(0), &cache) {
        Some(Some(typ)) => assert_eq!(typ.into_monotype(), var(0)),
        _ => panic!("the member has a type"),
    }
    match lookup_definition_traits_in_trait(&show, TraitInfoId(0), &cache) {
        Some(Some(traits)) => assert_eq!(traits[0].signature.id, TraitConstraintId(9)),
        _ => panic!("the member has a type"),
    }
    assert!(lookup_definition_type_in_trait(&"hide".to_string(), TraitInfoId(0), &cache).is_none());
    assert!(lookup_definition_type_in_trait(&show, TraitInfoId(1), &cache).is_none());
}

#[test]
fn an_impl_binds_the_variables_of_its_trait() {
    let mut cache = cache_with_trait();
    next_type_variable(&mut cache);
    cache.trait_infos[0].fundeps.push(TypeVariableId(1));
    cache.impl_infos.push(ImplInfo { given: vec![signature(5, vec![boolean()], 6)] });
    let mut node: TraitImpl<Literal> = TraitImpl {
        trait_info: Some(TraitInfoId(0)),
        impl_id: Some(ImplInfoId(0)),
        trait_arg_types: vec![boolean(), character()],
        definitions: vec![],
        location: at(0),
        typ: None,
    };
    match node.begin(&mut cache) {
        Some(BegunImpl::Running(progress)) => {
            assert_eq!(progress.bindings.len(), 2);
            assert_eq!(progress.bindings.get(&0), Some(&boolean()));
            assert_eq!(progress.bindings.get(&1), Some(&character()));
            assert_eq!(progress.next, 0);
        }
        _ => panic!("the impl was not inferred yet"),
    }
    let given = node.given(&cache).unwrap();
    assert_eq!(given.len(), 1);
    assert_eq!(given[0].id, TraitConstraintId(6));
    node.typ = Some(Type::unit());
    match node.begin(&mut cache) {
        Some(BegunImpl::Done(result)) => assert_eq!(result.typ, Type::unit()),
        _ => panic!("the impl has a type"),
    }
    node.typ = None;
    node.trait_info = None;
    assert!(node.begin(&mut cache).is_none());
}

#[test]
fn a_member_of_an_impl_gets_its_type_from_the_trait() {
    let mut cache = cache_with_trait();
    next_type_variable(&mut cache);
    let member = Type::Function(function(vec![var(0), var(1)], Type::unit()));
    cache.definition_infos[0].typ =
        Some(GeneralizedType::PolyType(vec![TypeVariableId(0), TypeVariableId(1)], member));
    let mut bindings = HashMap::new();
    bindings.insert(0, character());
    let mut binding = bind_irrefutable_pattern_in_impl(&named("show", 1), TraitInfoId(0));
    assert_eq!(binding.step(&mut bindings, &mut cache), Some(BindingTodo::Done));
    match &cache.definition_infos[1].typ {
        Some(GeneralizedType::MonoType(t)) => {
            assert_eq!(*t, Type::Function(function(vec![character(), var(2)], Type::unit())));
        }
        _ => panic!("the member is monomorphic while it is inferred"),
    }
    assert_eq!(bindings.get(&1), Some(&var(2)));
    // What is no pattern is reported, and what is no member has no type.
    let other = Pattern::Other(NoPattern { location: at(8), typ: None });
    let mut binding = bind_irrefutable_pattern_in_impl(&other, TraitInfoId(0));
    assert_eq!(binding.step(&mut bindings, &mut cache), Some(BindingTodo::Done));
    assert!(matches!(
        cache.diagnostics[0].kind,
        DiagnosticKind::InvalidSyntaxInIrrefutablePattern
    ));
    let mut binding = bind_irrefutable_pattern_in_impl(&named("hide", 1), TraitInfoId(0));
    assert!(binding.step(&mut bindings, &mut cache).is_none());
    // A trait that was not inferred yet comes first.
    cache.definition_infos[0].typ = None;
    let mut binding = bind_irrefutable_pattern_in_impl(&named("show", 1), TraitInfoId(0));
    assert_eq!(binding.step(&mut bindings, &mut cache), Some(BindingTodo::InferTrait));
    cache.definition_infos[0].typ = Some(GeneralizedType::MonoType(var(0)));
    assert_eq!(binding.step(&mut bindings, &mut cache), Some(BindingTodo::Done));
    match &cache.definition_infos[1].typ {
        Some(GeneralizedType::MonoType(t)) => assert_eq!(*t, character()),
        _ => panic!("the member has a type"),
    }
}

#[test]
fn a_check_waits_for_the_trait() {
    let mut cache = cache_with_trait();
    let mut check = check_impl_propagated_traits(&named("show", 1), TraitInfoId(0));
    assert!(matches!(check.step(&[], &mut cache), Some(CheckTodo::InferTrait)));
    cache.definition_infos[0].typ = Some(GeneralizedType::MonoType(var(0)));
    assert!(matches!(check.step(&[], &mut cache), Some(CheckTodo::Done)));
}

#[test]
fn a_used_trait_matches_at_the_same_arguments_alone() {
    let mut cache = cache_with_trait();
    let used = required(2, vec![boolean()], 1);
    let useable = [required(3, vec![boolean()], 10), required(2, vec![character()], 11)];
    let given = [signature(2, vec![var(0)], 12), signature(2, vec![boolean()], 13)];
    // The variable would have to be bound first.
    assert_eq!(
        find_matching_trait(&used, &useable, &given, &mut cache),
        Some(Some(TraitConstraintId(13)))
    );
    assert_eq!(find_matching_trait(&used, &useable, &given[..1], &mut cache), Some(None));
    let more = [required(2, vec![boolean()], 14)];
    assert_eq!(
        find_matching_trait(&used, &more, &given, &mut cache),
        Some(Some(TraitConstraintId(14)))
    );
}

#[test]
fn an_impl_uses_the_traits_it_is_given() {
    let mut cache = cache_with_trait();
    cache.definition_infos[0].typ = Some(GeneralizedType::MonoType(var(0)));
    cache.definition_infos[0].required_traits.push(required(2, vec![boolean()], 20));
    cache.definition_infos[1].required_traits = vec![
        required(2, vec![boolean()], 1),
        required(4, vec![], 2),
        required(3, vec![character()], 3),
    ];
    let given = [signature(3, vec![character()], 30)];
    let mut check = check_impl_propagated_traits(&named("show", 1), TraitInfoId(0));
    // The second one is not given: it has to be resolved.
    match check.step(&given, &mut cache) {
        Some(CheckTodo::Resolve(constraint)) => {
            assert_eq!(constraint.required.signature.id, TraitConstraintId(2));
            assert_eq!(constraint.scope, ImplScopeId(7));
        }
        _ => panic!("a trait is not given"),
    }
    assert!(matches!(check.step(&given, &mut cache), Some(CheckTodo::Done)));
    let kept = &cache.definition_infos[1].required_traits;
    assert_eq!(kept.len(), 2);
    assert_eq!(kept[0].signature.id, TraitConstraintId(20));
    assert_eq!(kept[0].signature.trait_id, TraitInfoId(2));
    assert_eq!(kept[1].signature.id, TraitConstraintId(30));
}

fn original_error() -> Diagnostic {
    Diagnostic {
        location: at(50),
        kind: DiagnosticKind::TypeError(
            TypeErrorKind::CalledValueIsNotAFunction,
            boolean(),
            character(),
        ),
        bindings: vec![],
    }
}

#[test]
fn the_definitions_of_an_impl_are_bound_inferred_checked_and_forced_in_turn() {
    let mut cache = cache_with_trait();
    cache.impl_infos.push(ImplInfo { given: vec![signature(5, vec![boolean()], 6)] });
    let value = Literal { kind: LiteralKind::Bool, location: at(1), typ: None };
    let node: TraitImpl<Literal> = TraitImpl {
        trait_info: Some(TraitInfoId(0)),
        impl_id: Some(ImplInfoId(0)),
        trait_arg_types: vec![boolean()],
        definitions: vec![Definition {
            pattern: named("show", 1),
            expr: Box::new(value),
            level: None,
            location: at(2),
            typ: None,
        }],
        location: at(0),
        typ: None,
    };
    let mut progress = match node.begin(&mut cache) {
        Some(BegunImpl::Running(progress)) => progress,
        _ => panic!("the impl was not inferred yet"),
    };
    // The trait comes first, since its member has no type yet.
    match node.step(&mut progress, ImplEvent::Resumed, &mut cache) {
        Some(ImplAction::InferTrait(id)) => assert_eq!(id, TraitInfoId(0)),
        _ => panic!("the trait was not inferred yet"),
    }
    assert!(cache.definition_infos[1].typ.is_none());
    cache.definition_infos[0].typ = Some(GeneralizedType::MonoType(var(0)));
    match node.step(&mut progress, ImplEvent::Resumed, &mut cache) {
        Some(ImplAction::InferDefinition(i)) => assert_eq!(i, 0),
        _ => panic!("the definition was not inferred yet"),
    }
    // The definition has its type from the trait before it is inferred.
    match &cache.definition_infos[1].typ {
        Some(GeneralizedType::MonoType(typ)) => assert_eq!(*typ, boolean()),
        _ => panic!("the member has a type"),
    }
    assert!(node.step(&mut progress, ImplEvent::Resumed, &mut cache).is_none());
    // It uses a trait that is given, and one that is not; a third is left over.
    cache.definition_infos[1].required_traits.push(required(5, vec![boolean()], 40));
    cache.definition_infos[1].required_traits.push(required(8, vec![boolean()], 41));
    let left = TraitConstraint { required: required(9, vec![], 42), scope: ImplScopeId(7) };
    match node.step(&mut progress, ImplEvent::Inferred(vec![left]), &mut cache) {
        Some(ImplAction::Resolve(constraint)) => {
            assert_eq!(constraint.required.signature.id, TraitConstraintId(41));
        }
        _ => panic!("a trait that is not given is resolved"),
    }
    match node.step(&mut progress, ImplEvent::Resumed, &mut cache) {
        Some(ImplAction::Resolve(constraint)) => {
            assert_eq!(constraint.required.signature.id, TraitConstraintId(42));
        }
        _ => panic!("a trait that is left over is resolved"),
    }
    let kept = &cache.definition_infos[1].required_traits;
    assert_eq!(kept.len(), 1);
    assert_eq!(kept[0].signature.id, TraitConstraintId(6));
    match node.step(&mut progress, ImplEvent::Resumed, &mut cache) {
        Some(ImplAction::Done(result)) => {
            assert_eq!(result.typ, Type::unit());
            assert_eq!(result.traits.len(), 0);
        }
        _ => panic!("nothing is left to do"),
    }
    assert!(node.step(&mut progress, ImplEvent::Inferred(vec![]), &mut cache).is_none());
}

#[test]
fn functions_are_unwrapped_through_their_bindings() {
    let mut cache = cache_with_trait();
    let f = function(vec![boolean()], Type::unit());
    cache.bind(TypeVariableId(0), Type::Function(f.clone()));
    let other = function(vec![], boolean());
    match try_unwrap_functions(var(0), Type::Function(other.clone()), &cache) {
        Some(Some((a, b))) => {
            assert_eq!(a, f);
            assert_eq!(b, other);
        }
        _ => panic!("both are functions"),
    }
    assert!(matches!(
        try_unwrap_functions(boolean(), Type::Function(other), &cache),
        Some(None)
    ));
}

#[test]
fn functions_whose_arguments_fit_are_reported_whole() {
    let mut cache = cache_with_trait();
    let expected = function(vec![boolean()], Type::unit());
    let actual = function(vec![boolean()], boolean());
    issue_argument_types_error(
        at(51),
        &[at(52)],
        Type::Function(expected.clone()),
        Type::Function(actual.clone()),
        original_error(),
        &mut cache,
    )
    .unwrap();
    assert_eq!(cache.error_count(), 1);
    assert_eq!(cache.diagnostics[0].location, at(51));
    match &cache.diagnostics[0].kind {
        DiagnosticKind::FunctionTypeMismatch(a, e) => {
            assert_eq!(*a, actual);
            assert_eq!(*e, expected);
        }
        _ => panic!("the environments differ"),
    }
}

#[test]
fn each_argument_that_does_not_fit_is_reported_where_it_stands() {
    let mut cache = cache_with_trait();
    issue_argument_types_error(
        at(51),
        &[at(52), at(53)],
        Type::Function(function(vec![boolean(), boolean()], Type::unit())),
        Type::Function(function(vec![boolean(), character()], Type::unit())),
        original_error(),
        &mut cache,
    )
    .unwrap();
    assert_eq!(cache.error_count(), 1);
    assert_eq!(cache.diagnostics[0].location, at(53));
    match &cache.diagnostics[0].kind {
        DiagnosticKind::TypeError(TypeErrorKind::ArgumentTypeMismatch, actual, expected) => {
            assert_eq!(*actual, character());
            assert_eq!(*expected, boolean());
        }
        _ => panic!("the second argument does not fit"),
    }
    // What is no function gets the error it came with.
    issue_argument_types_error(
        at(51),
        &[],
        boolean(),
        Type::Function(function(vec![], Type::unit())),
        original_error(),
        &mut cache,
    )
    .unwrap();
    assert_eq!(cache.diagnostics[1].location, at(50));
}
