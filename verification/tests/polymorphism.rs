use std::collections::HashMap;
use typechecker::bindings::UnificationBindings;
use typechecker::cache::{
    Callsite, ConstraintSignature, DefinitionInfo, DefinitionInfoId, GeneralizedType, ImplScopeId,
    ModuleCache, RequiredTrait, TraitConstraint, TraitConstraintId, TraitInfoId, TypeBinding,
    VariableId,
};
use typechecker::contains::contains_any_typevars_from_list;
use typechecker::instantiate::{
    instantiate_impl_with_bindings, ref_of, replace_typevars, to_trait_constraints, Mutability,
};
use typechecker::occurs::{occurs, occurs_helper};
use typechecker::subst::{
    bind_at, bind_typevars, next_type_variable, next_type_variable_id, replace_all_typevars,
    replace_all_typevars_with_bindings, replace_typevar_with_binding,
};
use typechecker::types::{
    Effect, EffectInfoId, EffectSet, Field, FunctionType, Kind, LetBindingLevel, PrimitiveType,
    Type, TypeInfoId, TypeTag, TypeVariableId,
};
use typechecker::typevars::{
    find_all_typevars, find_all_typevars_in_traits, generalize, level_is_polymorphic,
};
use typechecker::unify::RECURSION_LIMIT;

fn var(id: usize) -> Type {
    Type::TypeVariable(TypeVariableId(id))
}

fn ids(list: &[usize]) -> Vec<TypeVariableId> {
    let mut r = vec![];
    for id in list {
        r.push(TypeVariableId(*id));
    }
    r
}

fn boolean() -> Type {
    Type::Primitive(PrimitiveType::BooleanType)
}

fn character() -> Type {
    Type::Primitive(PrimitiveType::CharType)
}

fn function(parameters: Vec<Type>, return_type: Type) -> Type {
    Type::Function(FunctionType {
        parameters,
        return_type: Box::new(return_type),
        environment: Box::new(Type::unit()),
        effects: Box::new(Type::Effects(EffectSet::only(vec![]))),
        has_varargs: false,
    })
}

fn apply(constructor: Type, args: Vec<Type>) -> Type {
    Type::TypeApplication(Box::new(constructor), args)
}

fn list_of(t: Type) -> Type {
    apply(Type::UserDefined(TypeInfoId(5)), vec![t])
}

fn cache_with(count: usize) -> ModuleCache {
    let mut cache = ModuleCache::new();
    for _ in 0..count {
        next_type_variable(&mut cache);
    }
    cache
}

fn required(trait_id: usize, args: Vec<Type>, id: usize) -> RequiredTrait {
    RequiredTrait {
        signature: ConstraintSignature {
            trait_id: TraitInfoId(trait_id),
            args,
            id: TraitConstraintId(id),
        },
        callsite: Callsite::Direct(VariableId(0)),
    }
}

#[test]
fn fresh_variables_are_new_and_at_the_current_level() {
    let mut cache = cache_with(2);
    cache.current_level = LetBindingLevel(3);
    assert_eq!(next_type_variable_id(&mut cache), TypeVariableId(2));
    assert_eq!(next_type_variable(&mut cache), var(3));
    assert_eq!(cache.type_bindings.len(), 4);
    assert!(matches!(cache.type_bindings[3], TypeBinding::Unbound(LetBindingLevel(3), Kind(0))));
    assert!(matches!(cache.type_bindings[0], TypeBinding::Unbound(LetBindingLevel(1), Kind(0))));
}

#[test]
fn binding_replaces_variables_everywhere() {
    let cache = cache_with(3);
    let mut bindings = HashMap::new();
    bindings.insert(0, boolean());
    bindings.insert(1, list_of(var(2)));
    let t = function(vec![var(0), list_of(var(1))], var(2));
    assert_eq!(
        bind_typevars(&t, &bindings, &cache),
        function(vec![boolean(), list_of(list_of(var(2)))], var(2))
    );
}

#[test]
fn the_bindings_come_before_the_cache() {
    let mut cache = cache_with(2);
    cache.bind(TypeVariableId(0), boolean());
    cache.bind(TypeVariableId(1), character());
    let mut bindings = HashMap::new();
    bindings.insert(0, Type::unit());
    let t = function(vec![var(0)], var(1));
    assert_eq!(bind_typevars(&t, &bindings, &cache), function(vec![Type::unit()], character()));
}

#[test]
fn a_type_without_bound_variables_stays_as_it_is() {
    let cache = cache_with(3);
    let t = function(
        vec![Type::Struct(
            vec![Field { name: "x".to_string(), typ: var(0) }],
            TypeVariableId(1),
        )],
        Type::Effects(EffectSet {
            effects: vec![Effect { id: EffectInfoId(0), args: vec![var(0)] }],
            extension: Some(TypeVariableId(2)),
        }),
    );
    assert_eq!(bind_typevars(&t, &HashMap::new(), &cache), t);
}

#[test]
fn a_bound_row_stands_for_its_binding() {
    let mut cache = cache_with(2);
    let t = Type::Struct(vec![Field { name: "x".to_string(), typ: var(0) }], TypeVariableId(1));
    cache.bind(TypeVariableId(1), boolean());
    assert_eq!(bind_at(9, &t, &HashMap::new(), &cache), Some(boolean()));
    // Without any bindings the type is just cloned.
    assert_eq!(bind_typevars(&t, &HashMap::new(), &cache), t);
}

#[test]
fn a_replaced_row_variable_keeps_the_fields() {
    let cache = cache_with(3);
    let t = Type::Struct(vec![Field { name: "x".to_string(), typ: var(0) }], TypeVariableId(1));
    let mut bindings = HashMap::new();
    bindings.insert(0, boolean());
    bindings.insert(1, var(2));
    assert_eq!(
        bind_typevars(&t, &bindings, &cache),
        Type::Struct(vec![Field { name: "x".to_string(), typ: boolean() }], TypeVariableId(2))
    );
    bindings.insert(1, character());
    assert_eq!(bind_typevars(&t, &bindings, &cache), character());
}

#[test]
fn rows_of_effects_are_joined_when_the_extension_is_bound() {
    let mut cache = cache_with(2);
    let first = Effect { id: EffectInfoId(0), args: vec![] };
    let second = Effect { id: EffectInfoId(1), args: vec![var(0)] };
    cache.bind(
        TypeVariableId(1),
        Type::Effects(EffectSet { effects: vec![second.clone()], extension: None }),
    );
    let t = Type::Effects(EffectSet {
        effects: vec![first.clone()],
        extension: Some(TypeVariableId(1)),
    });
    assert_eq!(
        bind_at(9, &t, &HashMap::new(), &cache),
        Some(Type::Effects(EffectSet { effects: vec![first.clone(), second], extension: None }))
    );
    // Nothing but a row can extend a row.
    let mut bindings = HashMap::new();
    bindings.insert(1, boolean());
    assert!(bind_at(9, &t, &bindings, &cache).is_none());
}

#[test]
fn replacing_all_variables_gives_each_a_fresh_one() {
    let mut cache = cache_with(2);
    let (types, bindings) =
        replace_all_typevars(&[function(vec![var(0)], var(1)), list_of(var(0))], &mut cache);
    assert_eq!(types[0], function(vec![var(2)], var(3)));
    assert_eq!(types[1], list_of(var(2)));
    assert_eq!(bindings.len(), 2);
    assert_eq!(bindings.get(&0), Some(&var(2)));
    assert_eq!(bindings.get(&1), Some(&var(3)));
    assert_eq!(cache.type_bindings.len(), 4);
}

#[test]
fn replacing_follows_bound_variables_and_keeps_the_given_bindings() {
    let mut cache = cache_with(3);
    cache.bind(TypeVariableId(0), list_of(var(1)));
    let mut bindings = HashMap::new();
    bindings.insert(1, boolean());
    let t = function(vec![var(0)], Type::NamedGeneric(TypeVariableId(2), "b".to_string()));
    assert_eq!(
        replace_all_typevars_with_bindings(&t, &mut bindings, &mut cache),
        function(vec![list_of(boolean())], var(3))
    );
    assert_eq!(bindings.len(), 2);
    assert_eq!(bindings.get(&2), Some(&var(3)));
    assert_eq!(
        replace_typevar_with_binding(TypeVariableId(2), &mut bindings, &mut cache),
        var(3)
    );
    assert_eq!(cache.type_bindings.len(), 4);
}

#[test]
fn the_variable_of_a_row_is_replaced_like_any_other() {
    let mut cache = cache_with(2);
    let record = |field: Type, rest: usize| {
        Type::Struct(vec![Field { name: "x".to_string(), typ: field }], TypeVariableId(rest))
    };
    let (types, bindings) =
        replace_all_typevars(&[record(var(0), 1), record(var(0), 1)], &mut cache);
    assert_eq!(types[0], record(var(3), 2));
    assert_eq!(types[1], types[0]);
    assert_eq!(bindings.get(&0), Some(&var(3)));
    assert_eq!(bindings.get(&1), Some(&var(2)));
    // Where the row is to become another type, it does.
    let mut given = HashMap::new();
    given.insert(1, boolean());
    assert_eq!(
        replace_all_typevars_with_bindings(&record(var(0), 1), &mut given, &mut cache),
        boolean()
    );
}

#[test]
fn renaming_leaves_the_other_variables() {
    let cache = cache_with(3);
    let mut names = HashMap::new();
    names.insert(0, TypeVariableId(2));
    assert_eq!(
        replace_typevars(&function(vec![var(0)], var(1)), &names, &cache),
        Some(function(vec![var(2)], var(1)))
    );
}

#[test]
fn replacing_once_more_changes_nothing() {
    let mut cache = cache_with(2);
    let t = function(vec![var(0), list_of(var(1))], var(0));
    let mut bindings = HashMap::new();
    let first = replace_all_typevars_with_bindings(&t, &mut bindings, &mut cache);
    assert_eq!(first, function(vec![var(2), list_of(var(3))], var(2)));
    let again = replace_all_typevars_with_bindings(&t, &mut bindings, &mut cache);
    assert_eq!(again, first);
    assert_eq!(bindings.len(), 2);
    assert_eq!(cache.type_bindings.len(), 4);
}

#[test]
fn replaced_types_are_what_the_bindings_say() {
    let mut cache = cache_with(3);
    cache.bind(TypeVariableId(2), list_of(var(0)));
    let ts = vec![function(vec![var(0)], var(2)), var(1)];
    let (replaced, bindings) = replace_all_typevars(&ts, &mut cache);
    for i in 0..ts.len() {
        assert_eq!(bind_typevars(&ts[i], &bindings, &cache), replaced[i]);
    }
    assert_eq!(bindings.len(), 2);
    assert!(bindings.contains_key(&0) && bindings.contains_key(&1));
    assert_ne!(bindings.get(&0), bindings.get(&1));
}

#[test]
fn no_replaced_variable_is_left() {
    let mut cache = cache_with(4);
    cache.bind(TypeVariableId(3), list_of(var(0)));
    let mut bindings = HashMap::new();
    bindings.insert(0, boolean());
    bindings.insert(1, list_of(var(2)));
    let row = Type::Struct(
        vec![Field { name: "x".to_string(), typ: var(0) }],
        TypeVariableId(2),
    );
    let t = function(vec![var(0), row], apply(var(3), vec![var(1)]));
    assert!(contains_any_typevars_from_list(&t, &ids(&[0, 1]), &cache));
    let bound = bind_typevars(&t, &bindings, &cache);
    assert!(!contains_any_typevars_from_list(&bound, &ids(&[0, 1]), &cache));
    assert!(contains_any_typevars_from_list(&bound, &ids(&[2]), &cache));
}

#[test]
fn a_renaming_can_be_undone() {
    let cache = cache_with(6);
    let t = function(vec![var(0), var(1)], list_of(var(2)));
    let mut names = HashMap::new();
    names.insert(0, TypeVariableId(4));
    names.insert(1, TypeVariableId(5));
    let renamed = replace_typevars(&t, &names, &cache).unwrap();
    assert_eq!(renamed, function(vec![var(4), var(5)], list_of(var(2))));
    let mut back = HashMap::new();
    back.insert(4, TypeVariableId(0));
    back.insert(5, TypeVariableId(1));
    assert_eq!(replace_typevars(&renamed, &back, &cache).unwrap(), t);
}

#[test]
fn a_type_contains_the_variables_that_are_collected_from_it() {
    let mut cache = cache_with(4);
    cache.bind(TypeVariableId(1), list_of(var(2)));
    let t = function(vec![var(0)], var(1));
    let found = find_all_typevars(&t, false, &cache);
    assert_eq!(found, ids(&[0, 2]));
    for i in 0..4 {
        assert_eq!(
            contains_any_typevars_from_list(&t, &ids(&[i]), &cache),
            found.contains(&TypeVariableId(i))
        );
    }
}

#[test]
fn a_reference_has_its_own_sharedness_and_lifetime() {
    let mut cache = cache_with(0);
    let t = ref_of(Mutability::Mutable, boolean(), &mut cache);
    match t {
        Type::TypeApplication(constructor, args) => {
            assert_eq!(args, vec![boolean()]);
            match *constructor {
                Type::Ref { sharedness, mutability, lifetime } => {
                    assert_eq!(*mutability, Type::Tag(TypeTag::Mutable));
                    assert_ne!(*sharedness, *lifetime);
                }
                _ => panic!("the constructor is that of references"),
            }
        }
        _ => panic!("a reference is an application"),
    }
}

#[test]
fn variables_are_collected_in_the_order_they_are_met() {
    let mut cache = cache_with(4);
    cache.bind(TypeVariableId(3), var(1));
    let t = function(vec![var(3), var(0)], var(2));
    // A variable that occurs twice is collected twice.
    assert_eq!(find_all_typevars(&t, false, &cache), ids(&[1, 0, 2]));
    assert_eq!(
        find_all_typevars(&function(vec![var(0)], var(0)), false, &cache),
        ids(&[0, 0])
    );
    assert_eq!(find_all_typevars(&boolean(), false, &cache), ids(&[]));
}

#[test]
fn only_variables_of_the_current_level_are_polymorphic() {
    let mut cache = cache_with(1);
    cache.current_level = LetBindingLevel(2);
    next_type_variable(&mut cache);
    assert!(!level_is_polymorphic(LetBindingLevel(1), &cache));
    assert!(level_is_polymorphic(LetBindingLevel(2), &cache));
    assert!(level_is_polymorphic(LetBindingLevel(3), &cache));
    let t = function(vec![var(0)], var(1));
    assert_eq!(find_all_typevars(&t, true, &cache), ids(&[1]));
    assert_eq!(find_all_typevars(&t, false, &cache), ids(&[0, 1]));
}

#[test]
fn a_type_is_generalized_over_its_polymorphic_variables() {
    let mut cache = cache_with(1);
    cache.current_level = LetBindingLevel(2);
    next_type_variable(&mut cache);
    next_type_variable(&mut cache);
    let t = function(vec![var(2), var(0), var(1)], var(2));
    match generalize(&t, &cache) {
        Some(GeneralizedType::PolyType(vars, body)) => {
            assert_eq!(vars, ids(&[1, 2]));
            assert_eq!(body, t);
        }
        _ => panic!("there are polymorphic variables"),
    }
    match generalize(&list_of(var(0)), &cache) {
        Some(GeneralizedType::MonoType(body)) => assert_eq!(body, list_of(var(0))),
        _ => panic!("there is no polymorphic variable"),
    }
}

#[test]
fn an_instance_has_fresh_variables() {
    let mut cache = cache_with(3);
    let body = function(vec![var(0), var(1), var(2)], var(0));
    let scheme = GeneralizedType::PolyType(ids(&[0, 1]), body);
    let (typ, traits, bindings) = scheme.instantiate(vec![], &mut cache);
    assert_eq!(typ, function(vec![var(3), var(4), var(2)], var(3)));
    assert!(traits.is_empty());
    assert_eq!(bindings.len(), 2);
    assert_eq!(bindings.get(&0), Some(&var(3)));
    assert_eq!(bindings.get(&1), Some(&var(4)));
    let (again, _, _) = scheme.instantiate(vec![], &mut cache);
    assert_eq!(again, function(vec![var(5), var(6), var(2)], var(5)));
}

#[test]
fn a_monotype_is_its_own_instance() {
    let mut cache = cache_with(1);
    let (typ, traits, bindings) =
        GeneralizedType::MonoType(list_of(var(0))).instantiate(vec![], &mut cache);
    assert_eq!(typ, list_of(var(0)));
    assert!(traits.is_empty());
    assert!(bindings.is_empty());
    assert_eq!(cache.type_bindings.len(), 1);
}

#[test]
fn the_constraints_of_an_instance_use_the_same_variables() {
    let mut cache = cache_with(2);
    let scheme = GeneralizedType::PolyType(ids(&[0]), list_of(var(0)));
    let constraint = TraitConstraint {
        required: required(7, vec![var(0), var(1)], 3),
        scope: ImplScopeId(1),
    };
    let (typ, traits, bindings) = scheme.instantiate(vec![constraint], &mut cache);
    assert_eq!(typ, list_of(var(2)));
    assert_eq!(traits.len(), 1);
    assert_eq!(traits[0].required.signature.trait_id, TraitInfoId(7));
    assert_eq!(traits[0].required.signature.id, TraitConstraintId(3));
    // The other polymorphic variable of the constraint gets a fresh one, too.
    assert_eq!(traits[0].required.signature.args, vec![var(2), var(3)]);
    assert_eq!(bindings.len(), 2);
}

#[test]
fn an_impl_is_instantiated_with_bindings() {
    let mut cache = cache_with(2);
    let mut bindings = HashMap::new();
    bindings.insert(0, boolean());
    let scheme = GeneralizedType::PolyType(ids(&[0, 1]), function(vec![var(0)], var(1)));
    match instantiate_impl_with_bindings(&scheme, &mut bindings, &mut cache) {
        Some(GeneralizedType::MonoType(t)) => assert_eq!(t, function(vec![boolean()], var(2))),
        _ => panic!("the result is a monotype"),
    }
    assert_eq!(bindings.get(&1), Some(&var(2)));
}

#[test]
fn a_use_has_a_constraint_for_each_required_trait_and_one_for_its_own() {
    let mut cache = cache_with(1);
    cache.definition_infos.push(DefinitionInfo {
        name: "show".to_string(),
        definition: None,
        typ: None,
        required_traits: vec![required(4, vec![var(0)], 8)],
        trait_info: Some((TraitInfoId(2), vec![var(0)])),
        undergoing_type_inference: false,
        mutable: false,
    });
    cache.current_trait_constraint_id = 10;
    let traits =
        to_trait_constraints(DefinitionInfoId(0), ImplScopeId(6), VariableId(5), &mut cache)
            .unwrap();
    assert_eq!(traits.len(), 2);
    assert_eq!(traits[0].required.signature.trait_id, TraitInfoId(4));
    assert_eq!(traits[0].required.signature.id, TraitConstraintId(10));
    assert_eq!(traits[0].scope, ImplScopeId(6));
    match &traits[0].required.callsite {
        Callsite::Indirect(VariableId(5), path) => assert_eq!(*path, vec![TraitConstraintId(8)]),
        _ => panic!("a required trait is used through its definition"),
    }
    assert_eq!(traits[1].required.signature.trait_id, TraitInfoId(2));
    assert_eq!(traits[1].required.signature.id, TraitConstraintId(11));
    assert!(matches!(traits[1].required.callsite, Callsite::Direct(VariableId(5))));
    assert_eq!(cache.current_trait_constraint_id, 12);
    assert!(to_trait_constraints(DefinitionInfoId(1), ImplScopeId(6), VariableId(5), &mut cache)
        .is_none());
}

#[test]
fn the_variables_of_constraints_are_collected() {
    let cache = cache_with(3);
    let traits = vec![
        TraitConstraint {
            required: required(0, vec![var(1), boolean()], 0),
            scope: ImplScopeId(0),
        },
        TraitConstraint {
            required: required(0, vec![list_of(var(0))], 1),
            scope: ImplScopeId(0),
        },
    ];
    assert_eq!(find_all_typevars_in_traits(&traits, &cache), Some(ids(&[1, 0])));
}

#[test]
fn a_type_contains_what_its_bindings_contain() {
    let mut cache = cache_with(3);
    cache.bind(TypeVariableId(0), list_of(var(1)));
    let t = function(vec![boolean()], var(0));
    assert!(contains_any_typevars_from_list(&t, &ids(&[2, 1]), &cache));
    assert!(!contains_any_typevars_from_list(&t, &ids(&[2]), &cache));
    assert!(!contains_any_typevars_from_list(&t, &ids(&[]), &cache));
    assert!(!contains_any_typevars_from_list(&boolean(), &ids(&[0, 1, 2]), &cache));
    // What is collected is contained.
    for id in find_all_typevars(&t, false, &cache) {
        assert!(contains_any_typevars_from_list(&t, &[id], &cache));
    }
}

#[test]
fn a_variable_occurs_where_it_can_be_reached() {
    let mut cache = cache_with(3);
    cache.bind(TypeVariableId(0), list_of(var(1)));
    let level = LetBindingLevel(1);
    let t = function(vec![boolean()], var(0));
    let mut bindings = UnificationBindings::empty();
    assert!(occurs(TypeVariableId(1), level, &t, &mut bindings, RECURSION_LIMIT, &cache));
    assert!(!occurs(TypeVariableId(2), level, &t, &mut bindings, RECURSION_LIMIT, &cache));
    // Through a binding that is not in the cache yet, too.
    bindings.bindings.insert(1, var(2));
    assert!(occurs(TypeVariableId(2), level, &t, &mut bindings, RECURSION_LIMIT, &cache));
}

#[test]
fn the_occurs_check_notes_levels_that_are_too_high() {
    let mut cache = cache_with(1);
    cache.current_level = LetBindingLevel(4);
    next_type_variable(&mut cache);
    let mut bindings = UnificationBindings::empty();
    let t = function(vec![var(0)], var(1));
    assert!(!occurs(
        TypeVariableId(9),
        LetBindingLevel(2),
        &t,
        &mut bindings,
        RECURSION_LIMIT,
        &cache
    ));
    assert_eq!(bindings.level_bindings, vec![(TypeVariableId(1), LetBindingLevel(2))]);
}

#[test]
fn the_occurs_check_gives_up_on_deep_types() {
    let cache = cache_with(1);
    let bindings = UnificationBindings::empty();
    let t = list_of(list_of(var(0)));
    let level = LetBindingLevel(1);
    assert!(occurs_helper(TypeVariableId(0), level, &t, &bindings, 2, &cache).is_none());
    match occurs_helper(TypeVariableId(0), level, &t, &bindings, 3, &cache) {
        Some(result) => assert!(result.occurs),
        None => panic!("three steps are enough"),
    }
}

#[test]
fn a_wrapped_type_forgets_its_quantifier() {
    let scheme = GeneralizedType::PolyType(ids(&[0]), list_of(var(0)));
    assert_eq!(*scheme.remove_forall(), list_of(var(0)));
    assert_eq!(GeneralizedType::MonoType(boolean()).into_monotype(), boolean());
}

#[test]
fn each_new_variable_stands_for_an_old_one() {
    let mut cache = cache_with(3);
    cache.bind(TypeVariableId(0), list_of(var(1)));
    let (types, bindings) =
        replace_all_typevars(&[function(vec![var(0)], var(2)), list_of(var(1))], &mut cache);
    let new = ids(&[3, 4]);
    for t in &types {
        for v in find_all_typevars(t, false, &cache) {
            assert!(new.contains(&v));
        }
    }
    assert_eq!(cache.type_bindings.len(), 5);
    assert_eq!(bindings.get(&0), None);
    assert_eq!(bindings.get(&1), Some(&var(3)));
    assert_eq!(bindings.get(&2), Some(&var(4)));
    assert_eq!(bindings.len(), 2);
}

#[test]
fn the_polymorphic_variables_come_in_the_order_of_all_variables() {
    let mut cache = cache_with(1);
    cache.current_level = LetBindingLevel(2);
    next_type_variable(&mut cache);
    next_type_variable(&mut cache);
    let t = function(vec![var(2), var(0), list_of(var(1))], function(vec![var(0)], var(2)));
    assert_eq!(find_all_typevars(&t, false, &cache), ids(&[2, 0, 1, 0, 2]));
    assert_eq!(find_all_typevars(&t, true, &cache), ids(&[2, 1, 2]));
}

#[test]
fn binding_and_replacing_keep_the_order_of_fields() {
    let mut cache = cache_with(3);
    let record = |x: Type, y: Type, rest: usize| {
        Type::Struct(
            vec![
                Field { name: "x".to_string(), typ: x },
                Field { name: "y".to_string(), typ: y },
            ],
            TypeVariableId(rest),
        )
    };
    let mut bindings = HashMap::new();
    bindings.insert(0, boolean());
    assert_eq!(
        bind_at(1000, &list_of(record(var(0), var(1), 2)), &bindings, &cache),
        Some(list_of(record(boolean(), var(1), 2)))
    );
    let (types, _) = replace_all_typevars(&[record(var(0), var(1), 2)], &mut cache);
    assert_eq!(types[0], record(var(4), var(5), 3));
}
