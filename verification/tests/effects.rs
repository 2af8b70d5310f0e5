use std::collections::HashMap;
use typechecker::branching::{Branch, Handle};
use typechecker::cache::{
    Callsite, ConstraintSignature, DefinitionInfo, DefinitionInfoId, DiagnosticKind,
    GeneralizedType, ImplScopeId, Location, ModuleCache, RequiredTrait, TraitConstraint,
    TraitConstraintId, TraitInfoId, TypeErrorKind, VariableId,
};
use typechecker::effect_sets::has_effect;
use typechecker::expressions::Literal;
use typechecker::programs::finish_program;
use typechecker::results::TypeResult;
use typechecker::rows::{find_field, insert_field, name_is_less};
use typechecker::subst::{bind_at, next_type_variable};
use typechecker::tree::LiteralKind;
use typechecker::types::{
    Effect, EffectInfoId, EffectSet, Field, PrimitiveType, Type, TypeVariableId,
};

fn at(start: usize) -> Location {
    Location { file: 1, start, end: start + 1 }
}

fn boolean() -> Type {
    Type::Primitive(PrimitiveType::BooleanType)
}

fn effect(id: usize) -> Effect {
    Effect { id: EffectInfoId(id), args: vec![] }
}

fn row(ids: &[usize], extension: Option<usize>) -> EffectSet {
    let mut effects = vec![];
    for id in ids {
        effects.push(effect(*id));
    }
    EffectSet { effects, extension: extension.map(TypeVariableId) }
}

fn cache_with(count: usize) -> ModuleCache {
    let mut cache = ModuleCache::new();
    for _ in 0..count {
        next_type_variable(&mut cache);
    }
    cache
}

fn resolved(t: &Type, cache: &ModuleCache) -> Type {
    bind_at(1000, t, &HashMap::new(), cache).unwrap()
}

#[test]
fn a_new_row_may_hold_any_effects() {
    let mut cache = cache_with(1);
    assert_eq!(EffectSet::any(&mut cache), row(&[], Some(1)));
    assert_eq!(EffectSet::only(vec![effect(3)]), row(&[3], None));
}

#[test]
fn a_row_is_flattened_along_its_extension() {
    let mut cache = cache_with(3);
    cache.bind(TypeVariableId(0), Type::TypeVariable(TypeVariableId(1)));
    cache.bind(TypeVariableId(1), Type::Effects(row(&[5, 6], Some(2))));
    assert_eq!(row(&[4], Some(0)).flatten(&cache), Some(row(&[4, 5, 6], Some(2))));
    assert_eq!(row(&[4], None).flatten(&cache), Some(row(&[4], None)));
    cache.bind(TypeVariableId(2), boolean());
    assert_eq!(row(&[4], Some(0)).flatten(&cache), None);
}

#[test]
fn combined_rows_hold_the_effects_of_both() {
    let mut cache = cache_with(2);
    let mut a = row(&[1, 2], Some(0));
    let b = row(&[2, 3], Some(1));
    a.combine(&b, &mut cache).unwrap();
    assert_eq!(a, row(&[1, 2, 3], Some(2)));
    // Both rows are extended, so that they hold the same effects from then on.
    let first = Type::Effects(row(&[1, 2], Some(0)));
    let second = Type::Effects(row(&[2, 3], Some(1)));
    assert_eq!(resolved(&first, &cache), Type::Effects(row(&[1, 2, 3], Some(2))));
    assert_eq!(resolved(&second, &cache), Type::Effects(row(&[2, 3, 1], Some(2))));
}

#[test]
fn a_row_combines_with_itself_without_change() {
    let mut cache = cache_with(1);
    let mut a = row(&[1], Some(0));
    let b = row(&[1], Some(0));
    a.combine(&b, &mut cache).unwrap();
    assert_eq!(a, row(&[1], Some(0)));
    assert_eq!(cache.type_bindings.len(), 1);
}

#[test]
fn closed_rows_combine_as_well() {
    let mut cache = cache_with(1);
    let mut a = row(&[1], None);
    a.combine(&row(&[2], None), &mut cache).unwrap();
    assert_eq!(a, row(&[1, 2], None));
    a.combine(&row(&[3], Some(0)), &mut cache).unwrap();
    assert_eq!(a, row(&[1, 2, 3], Some(0)));
}

#[test]
fn handled_effects_are_gone() {
    let mut cache = cache_with(1);
    let mut a = row(&[1, 2, 3], Some(0));
    let mut handled = vec![effect(2)];
    a.handle_effects_from(&row(&[2, 3, 4], None), &mut handled, &mut cache).unwrap();
    assert_eq!(a, row(&[1], Some(0)));
    assert_eq!(handled, vec![effect(2), effect(3)]);
    assert!(!has_effect(&a.effects, &effect(3)));
    assert!(has_effect(&a.effects, &effect(1)));
}

fn constraint(id: usize) -> TraitConstraint {
    TraitConstraint {
        required: RequiredTrait {
            signature: ConstraintSignature {
                trait_id: TraitInfoId(0),
                args: vec![],
                id: TraitConstraintId(id),
            },
            callsite: Callsite::Direct(VariableId(0)),
        },
        scope: ImplScopeId(0),
    }
}

#[test]
fn results_are_combined_part_by_part() {
    let mut cache = cache_with(0);
    let mut a = TypeResult::new(boolean(), vec![constraint(1)], &mut cache);
    let mut b = TypeResult::new(Type::unit(), vec![constraint(2)], &mut cache);
    b.effects = row(&[7], None);
    a.combine(&mut b, &mut cache).unwrap();
    assert_eq!(a.typ, boolean());
    assert_eq!(a.traits.len(), 2);
    assert_eq!(a.traits[0].required.signature.id, TraitConstraintId(1));
    assert_eq!(a.traits[1].required.signature.id, TraitConstraintId(2));
    assert_eq!(a.effects, row(&[7], Some(0)));
    let a = a.with_type(Type::unit());
    assert_eq!(a.typ, Type::unit());
    assert_eq!(a.traits.len(), 2);
}

#[test]
fn handling_keeps_the_constraints_of_the_handler() {
    let mut cache = cache_with(0);
    let mut a = TypeResult::of(boolean(), &mut cache);
    a.effects = row(&[1, 2], None);
    let mut handled = vec![];
    a.handle_effects_from(vec![constraint(3)], &row(&[1], None), &mut handled, &cache).unwrap();
    assert_eq!(a.traits.len(), 1);
    assert_eq!(a.effects, row(&[2], None));
    assert_eq!(handled, vec![effect(1)]);
}

fn literal(kind: LiteralKind) -> Literal {
    Literal { kind, location: at(1), typ: None }
}

fn resumable() -> DefinitionInfo {
    DefinitionInfo {
        name: "resume".to_string(),
        definition: None,
        typ: None,
        required_traits: vec![],
        trait_info: None,
        undergoing_type_inference: false,
        mutable: false,
    }
}

#[test]
fn a_handler_can_resume() {
    let mut cache = cache_with(0);
    cache.definition_infos.push(resumable());
    let mut handle = Handle {
        expression: Box::new(literal(LiteralKind::Bool)),
        branches: vec![Branch {
            pattern: literal(LiteralKind::Unit),
            body: literal(LiteralKind::Bool),
        }],
        resumes: vec![DefinitionInfoId(0)],
        effects_handled: vec![],
        location: at(2),
        typ: None,
    };
    let begun = handle.begin(&mut cache).unwrap();
    let result = handle
        .finish(begun, vec![(DefinitionInfoId(0), boolean())], &mut cache)
        .unwrap();
    assert_eq!(cache.error_count(), 0);
    assert_eq!(result.typ, boolean());
    match &cache.definition_infos[0].typ {
        Some(GeneralizedType::MonoType(t)) => match resolved(t, &cache) {
            Type::Function(f) => {
                assert_eq!(f.parameters, vec![Type::unit()]);
                assert_eq!(*f.return_type, boolean());
                assert!(matches!(
                    *f.environment,
                    Type::TypeApplication(_, args) if args[1] == boolean()
                ));
                assert!(matches!(*f.effects, Type::Effects(_)));
            }
            _ => panic!("a resumption is a function"),
        },
        _ => panic!("a resumption is monomorphic"),
    }
}

#[test]
fn a_branch_of_another_type_does_not_handle() {
    let mut cache = cache_with(0);
    cache.definition_infos.push(resumable());
    let mut handle = Handle {
        expression: Box::new(literal(LiteralKind::Bool)),
        branches: vec![Branch {
            pattern: literal(LiteralKind::Unit),
            body: literal(LiteralKind::Char),
        }],
        resumes: vec![DefinitionInfoId(0)],
        effects_handled: vec![],
        location: at(2),
        typ: None,
    };
    handle.begin(&mut cache).unwrap();
    assert_eq!(cache.error_count(), 1);
    assert!(matches!(
        cache.diagnostics[0].kind,
        DiagnosticKind::TypeError(TypeErrorKind::HandleBranchMismatch, _, _)
    ));
}

#[test]
fn a_program_handles_all_its_effects() {
    let mut cache = cache_with(0);
    let mut result = TypeResult::of(Type::unit(), &mut cache);
    assert!(finish_program(&result, &vec![], at(3), &mut cache).is_some());
    assert_eq!(cache.error_count(), 0);
    result.effects = row(&[1], None);
    assert!(finish_program(&result, &vec![], at(3), &mut cache).is_some());
    assert_eq!(cache.error_count(), 1);
    assert_eq!(cache.diagnostics[0].location, at(3));
    match &cache.diagnostics[0].kind {
        DiagnosticKind::UnhandledEffectsInMain(effects) => assert_eq!(*effects, row(&[1], None)),
        _ => panic!("an effect is left"),
    }
    // No constraint may be left.
    assert!(finish_program(&result, &vec![constraint(1)], at(3), &mut cache).is_none());
}

#[test]
fn fields_are_ordered_by_name() {
    let mut fields: Vec<Field> = vec![];
    insert_field(&mut fields, "b".to_string(), boolean());
    insert_field(&mut fields, "a".to_string(), Type::unit());
    insert_field(&mut fields, "ab".to_string(), Type::unit());
    insert_field(&mut fields, "b".to_string(), Type::unit());
    let mut names = vec![];
    for field in &fields {
        names.push(field.name.clone());
    }
    assert_eq!(names, vec!["a".to_string(), "ab".to_string(), "b".to_string()]);
    assert_eq!(fields[2].typ, Type::unit());
    assert_eq!(find_field(&fields, &"ab".to_string()), Some(1));
    assert_eq!(find_field(&fields, &"c".to_string()), None);
    assert!(name_is_less(&"a".to_string(), &"ab".to_string()));
    assert!(!name_is_less(&"ab".to_string(), &"a".to_string()));
    assert!(!name_is_less(&"a".to_string(), &"a".to_string()));
}
