use std::collections::HashMap;
use typechecker::access::{Assignment, MemberAccess};
use typechecker::branching::{Branch, Match};
use typechecker::cache::{
    Cache, DefinitionInfo, DefinitionInfoId, DefinitionKind, DiagnosticKind, GeneralizedType,
    ImplScopeId, Location, ModuleCache, TypeInfo, TypeInfoBody, VariableId,
};
use typechecker::definitions::Capture;
use typechecker::expressions::{
    If, Import, Literal, NamedConstructor, Reference, Return, Sequence, TypeAnnotation,
    TypeDefinition,
};
use typechecker::functions::{FunctionCall, Lambda};
use typechecker::instantiate::Mutability;
use typechecker::patterns::{bind_irrefutable_pattern, Pattern, PatternVariable};
use typechecker::programs::{finish_program, infer_ast};
use typechecker::results::TypeResult;
use typechecker::rules::Place;
use typechecker::subst::bind_at;
use typechecker::tree::{
    infer, Expression, Inferable, LiteralKind, Locatable, Node, Outcome, Tree, Typed,
};
use typechecker::types::{
    EffectSet, Field, FunctionType, IntegerKind, LetBindingLevel, PrimitiveType, Type, TypeInfoId,
    TypeTag, TypeVariableId,
};
use typechecker::values::{BegunDefinition, Definition, Variable, VariableLookup};

#[derive(Debug)]
enum Ast {
    Literal(Literal),
    Variable(Variable),
    Lambda(Lambda<Ast>),
    Call(FunctionCall<Ast>),
    Definition(Definition<Ast>),
    If(If<Ast>),
    Match(Match<Ast>),
    Annotation(TypeAnnotation<Ast>),
    Return(Return<Ast>),
    Sequence(Sequence<Ast>),
    Access(MemberAccess<Ast>),
    Assignment(Assignment<Ast>),
    Reference(Reference<Ast>),
    Named(NamedConstructor<Ast>),
}

impl Node for Ast {
    // Only contracts speak of the tree.
    fn tree(&self) -> Tree {
        unreachable!()
    }
}

impl Locatable for Ast {
    fn locate(&self) -> Location {
        match self {
            Ast::Literal(node) => node.locate(),
            Ast::Variable(node) => node.locate(),
            Ast::Lambda(node) => node.locate(),
            Ast::Call(node) => node.locate(),
            Ast::Definition(node) => node.locate(),
            Ast::If(node) => node.locate(),
            Ast::Match(node) => node.locate(),
            Ast::Annotation(node) => node.locate(),
            Ast::Return(node) => node.locate(),
            Ast::Sequence(node) => node.locate(),
            Ast::Access(node) => node.locate(),
            Ast::Assignment(node) => node.locate(),
            Ast::Reference(node) => node.locate(),
            Ast::Named(node) => node.locate(),
        }
    }
}

impl Typed for Ast {
    fn get_type(&self) -> Option<&Type> {
        match self {
            Ast::Literal(node) => node.get_type(),
            Ast::Variable(node) => node.get_type(),
            Ast::Lambda(node) => node.get_type(),
            Ast::Call(node) => node.get_type(),
            Ast::Definition(node) => node.get_type(),
            Ast::If(node) => node.get_type(),
            Ast::Match(node) => node.get_type(),
            Ast::Annotation(node) => node.get_type(),
            Ast::Return(node) => node.get_type(),
            Ast::Sequence(node) => node.get_type(),
            Ast::Access(node) => node.get_type(),
            Ast::Assignment(node) => node.get_type(),
            Ast::Reference(node) => node.get_type(),
            Ast::Named(node) => node.get_type(),
        }
    }

    fn set_type(&mut self, typ: Type) {
        match self {
            Ast::Literal(node) => node.set_type(typ),
            Ast::Variable(node) => node.set_type(typ),
            Ast::Lambda(node) => node.set_type(typ),
            Ast::Call(node) => node.set_type(typ),
            Ast::Definition(node) => node.set_type(typ),
            Ast::If(node) => node.set_type(typ),
            Ast::Match(node) => node.set_type(typ),
            Ast::Annotation(node) => node.set_type(typ),
            Ast::Return(node) => node.set_type(typ),
            Ast::Sequence(node) => node.set_type(typ),
            Ast::Access(node) => node.set_type(typ),
            Ast::Assignment(node) => node.set_type(typ),
            Ast::Reference(node) => node.set_type(typ),
            Ast::Named(node) => node.set_type(typ),
        }
    }
}

impl Inferable for Ast {
    // Only contracts speak of the rule.
    fn rule(_: Tree, _: Cache) -> Option<Outcome> {
        unreachable!()
    }

    fn infer_impl(&mut self, cache: &mut ModuleCache) -> Option<TypeResult> {
        match self {
            Ast::Literal(node) => node.infer_impl(cache),
            Ast::Variable(node) => match node.lookup(cache)? {
                VariableLookup::Known(typ, traits) => node.infer_use(&typ, traits, cache),
                VariableLookup::Nested(_, _, _) => None,
            },
            Ast::Lambda(node) => node.infer_impl(cache),
            Ast::Call(node) => node.infer_impl(cache),
            Ast::Definition(node) => match node.begin(cache)? {
                BegunDefinition::Done(result) => Some(result),
                BegunDefinition::Value { result, previous_level } => {
                    if let Ast::Lambda(_) = &*node.expr {
                        bind_irrefutable_pattern(
                            &mut node.pattern,
                            &result.typ,
                            &[],
                            true,
                            cache,
                        )?;
                    }
                    node.finish(result.effects, result.traits, previous_level, &[], cache)
                }
            },
            Ast::If(node) => node.infer_impl(cache),
            Ast::Match(node) => match node.infer_branches(cache)? {
                (result, _) => Some(result),
            },
            Ast::Annotation(node) => node.infer_impl(cache),
            Ast::Return(node) => node.infer_impl(cache),
            Ast::Sequence(node) => node.infer_impl(cache),
            Ast::Access(node) => node.infer_impl(cache),
            Ast::Assignment(node) => node.infer_impl(cache),
            Ast::Reference(node) => node.infer_impl(cache),
            Ast::Named(node) => node.infer_impl(cache),
        }
    }
}

impl Expression for Ast {
    fn place(&self) -> Place {
        match self {
            Ast::Variable(node) => Place::Variable(node.definition, node.location),
            Ast::Access(_) => Place::MemberAccess,
            _ => Place::Temporary(self.locate()),
        }
    }

    fn as_lambda(&self) -> Option<(&Vec<Pattern>, Option<&Type>)> {
        match self {
            Ast::Lambda(node) => node.as_lambda(),
            _ => None,
        }
    }
}

fn at(start: usize) -> Location {
    Location { file: 1, start, end: start + 1 }
}

fn boolean() -> Type {
    Type::Primitive(PrimitiveType::BooleanType)
}

fn character() -> Type {
    Type::Primitive(PrimitiveType::CharType)
}

fn var(id: usize) -> Type {
    Type::TypeVariable(TypeVariableId(id))
}

fn literal(kind: LiteralKind) -> Ast {
    Ast::Literal(Literal { kind, location: at(1), typ: None })
}

fn truth() -> Ast {
    literal(LiteralKind::Bool)
}

fn letter() -> Ast {
    literal(LiteralKind::Char)
}

fn use_of(id: usize) -> Ast {
    Ast::Variable(Variable {
        definition: Some(DefinitionInfoId(id)),
        impl_scope: Some(ImplScopeId(0)),
        id: Some(VariableId(id)),
        instantiation_mapping: HashMap::new(),
        location: at(2),
        typ: None,
    })
}

fn named(id: usize) -> Pattern {
    Pattern::Variable(PatternVariable {
        name: "x".to_string(),
        definition: Some(DefinitionInfoId(id)),
        impl_scope: Some(ImplScopeId(0)),
        location: at(3),
        typ: None,
    })
}

fn lambda(args: Vec<Pattern>, body: Ast) -> Ast {
    Ast::Lambda(Lambda {
        args,
        closure_environment: vec![],
        body: Box::new(body),
        location: at(4),
        typ: None,
    })
}

fn call(function: Ast, args: Vec<Ast>) -> Ast {
    Ast::Call(FunctionCall { function: Box::new(function), args, location: at(5), typ: None })
}

fn define(id: usize, expr: Ast, level: usize) -> Ast {
    Ast::Definition(Definition {
        pattern: named(id),
        expr: Box::new(expr),
        level: Some(LetBindingLevel(level)),
        location: at(6),
        typ: None,
    })
}

fn definition(kind: Option<DefinitionKind>, mutable: bool) -> DefinitionInfo {
    DefinitionInfo {
        name: "x".to_string(),
        definition: kind,
        typ: None,
        required_traits: vec![],
        trait_info: None,
        undergoing_type_inference: false,
        mutable,
    }
}

fn cache_with(definitions: usize) -> ModuleCache {
    let mut cache = ModuleCache::new();
    for _ in 0..definitions {
        cache.definition_infos.push(definition(None, false));
    }
    cache
}

fn resolved(t: &Type, cache: &ModuleCache) -> Type {
    bind_at(1000, t, &HashMap::new(), cache).unwrap()
}

fn type_of(ast: &mut Ast, cache: &mut ModuleCache) -> Type {
    let result = infer(ast, cache).unwrap();
    assert_eq!(*ast.get_type().unwrap(), result.typ);
    resolved(&result.typ, cache)
}

fn reasons(cache: &ModuleCache) -> Vec<String> {
    let mut r = vec![];
    for diagnostic in &cache.diagnostics {
        r.push(match &diagnostic.kind {
            DiagnosticKind::TypeError(reason, _, _) => format!("{:?}", reason),
            kind => format!("{:?}", kind),
        });
    }
    r
}

#[test]
fn literals_have_their_own_types() {
    let mut cache = cache_with(0);
    assert_eq!(type_of(&mut truth(), &mut cache), boolean());
    assert_eq!(type_of(&mut letter(), &mut cache), character());
    assert_eq!(type_of(&mut literal(LiteralKind::Unit), &mut cache), Type::unit());
    assert_eq!(
        type_of(&mut literal(LiteralKind::String), &mut cache),
        Type::UserDefined(TypeInfoId(0))
    );
    assert_eq!(
        type_of(&mut literal(LiteralKind::Integer(Some(IntegerKind::U8))), &mut cache),
        Type::TypeApplication(
            Box::new(Type::Primitive(PrimitiveType::IntegerType)),
            vec![Type::Primitive(PrimitiveType::IntegerTag(IntegerKind::U8))]
        )
    );
    let count = cache.type_bindings.len();
    assert_eq!(
        type_of(&mut literal(LiteralKind::Integer(None)), &mut cache),
        Type::TypeApplication(
            Box::new(Type::Primitive(PrimitiveType::IntegerType)),
            vec![var(count)]
        )
    );
}

#[test]
fn a_function_is_inferred_from_its_body() {
    let mut cache = cache_with(1);
    let t = type_of(&mut lambda(vec![named(0)], truth()), &mut cache);
    match t {
        Type::Function(function) => {
            assert_eq!(function.parameters, vec![var(0)]);
            assert_eq!(*function.return_type, boolean());
            assert_eq!(*function.environment, Type::unit());
            // The body has no effects, and no others can be added.
            assert_eq!(*function.effects, Type::Effects(EffectSet::only(vec![])));
            assert!(!function.has_varargs);
        }
        _ => panic!("a lambda is a function"),
    }
}

#[test]
fn a_parameter_has_one_type_in_the_whole_body() {
    let mut cache = cache_with(1);
    let mut ast = lambda(
        vec![named(0)],
        Ast::If(If {
            condition: Box::new(use_of(0)),
            consequence: Box::new(use_of(0)),
            otherwise: Box::new(truth()),
            location: at(7),
            typ: None,
        }),
    );
    match type_of(&mut ast, &mut cache) {
        Type::Function(function) => {
            assert_eq!(function.parameters, vec![boolean()]);
            assert_eq!(*function.return_type, boolean());
        }
        _ => panic!("a lambda is a function"),
    }
    assert_eq!(cache.error_count(), 0);
}

#[test]
fn a_call_has_the_type_that_the_function_returns() {
    let mut cache = cache_with(1);
    let mut ast = call(lambda(vec![named(0)], use_of(0)), vec![letter()]);
    assert_eq!(type_of(&mut ast, &mut cache), character());
    assert_eq!(cache.error_count(), 0);
}

#[test]
fn a_definition_is_polymorphic_in_the_rest() {
    let mut cache = cache_with(3);
    let mut ast = Ast::Sequence(Sequence {
        statements: vec![
            define(0, lambda(vec![named(1)], use_of(1)), 2),
            call(use_of(0), vec![truth()]),
            call(use_of(0), vec![letter()]),
        ],
        location: at(8),
        typ: None,
    });
    assert_eq!(type_of(&mut ast, &mut cache), character());
    assert_eq!(cache.error_count(), 0);
    assert_eq!(cache.current_level, LetBindingLevel(1));
    assert!(!cache.definition_infos[0].undergoing_type_inference);
    assert!(cache.call_stack.is_empty());
    match &cache.definition_infos[0].typ {
        Some(GeneralizedType::PolyType(vars, Type::Function(function))) => {
            let parameter = resolved(&function.parameters[0], &cache);
            assert_eq!(parameter, resolved(&function.return_type, &cache));
            assert_eq!(parameter, Type::TypeVariable(vars[0]));
        }
        _ => panic!("the definition is generic"),
    }
}

#[test]
fn a_lambda_parameter_is_not_polymorphic() {
    // \f. f true; f 'c'
    let mut cache = cache_with(1);
    let body = Ast::Sequence(Sequence {
        statements: vec![call(use_of(0), vec![truth()]), call(use_of(0), vec![letter()])],
        location: at(8),
        typ: None,
    });
    type_of(&mut lambda(vec![named(0)], body), &mut cache);
    assert_eq!(reasons(&cache), vec!["ArgumentTypeMismatch".to_string()]);
}

#[test]
fn a_definition_is_inferred_once() {
    let mut cache = cache_with(1);
    let mut ast = define(0, truth(), 2);
    assert_eq!(type_of(&mut ast, &mut cache), Type::unit());
    let diagnostics = cache.error_count();
    assert_eq!(type_of(&mut ast, &mut cache), Type::unit());
    assert_eq!(cache.error_count(), diagnostics);
    match &cache.definition_infos[0].typ {
        Some(GeneralizedType::MonoType(t)) => assert_eq!(*t, boolean()),
        _ => panic!("only functions are generalized"),
    }
}

#[test]
fn a_definition_has_a_type_and_leaves_the_level() {
    let mut cache = cache_with(1);
    cache.current_level = LetBindingLevel(1);
    let mut ast = define(0, truth(), 2);
    assert_eq!(type_of(&mut ast, &mut cache), Type::unit());
    assert_eq!(cache.current_level, LetBindingLevel(1));
    assert!(ast.get_type().is_some());
    let count = cache.type_bindings.len();
    assert_eq!(type_of(&mut ast, &mut cache), Type::unit());
    // The effects of the second inference are a new variable; nothing else is made.
    assert_eq!(cache.type_bindings.len(), count + 1);
    assert_eq!(cache.current_level, LetBindingLevel(1));
}

#[test]
fn a_recursive_function_is_inferred() {
    // f = \x. f x
    let mut cache = cache_with(2);
    let mut ast = define(0, lambda(vec![named(1)], call(use_of(0), vec![use_of(1)])), 2);
    type_of(&mut ast, &mut cache);
    assert_eq!(cache.error_count(), 0);
    match &cache.definition_infos[0].typ {
        Some(GeneralizedType::PolyType(_, Type::Function(function))) => {
            assert_eq!(function.parameters.len(), 1);
        }
        _ => panic!("the definition is generic"),
    }
}

#[test]
fn the_condition_of_an_if_is_a_boolean() {
    let mut cache = cache_with(0);
    let mut ast = Ast::If(If {
        condition: Box::new(letter()),
        consequence: Box::new(truth()),
        otherwise: Box::new(truth()),
        location: at(7),
        typ: None,
    });
    assert_eq!(type_of(&mut ast, &mut cache), boolean());
    assert_eq!(reasons(&cache), vec!["NonBoolInCondition".to_string()]);
    match &cache.diagnostics[0].kind {
        DiagnosticKind::TypeError(_, actual, expected) => {
            assert_eq!(*actual, boolean());
            assert_eq!(*expected, character());
        }
        _ => panic!("a mismatch is a type error"),
    }
}

#[test]
fn the_branches_of_an_if_have_one_type() {
    let mut cache = cache_with(0);
    let mut ast = Ast::If(If {
        condition: Box::new(truth()),
        consequence: Box::new(letter()),
        otherwise: Box::new(truth()),
        location: at(7),
        typ: None,
    });
    assert_eq!(type_of(&mut ast, &mut cache), character());
    assert_eq!(reasons(&cache), vec!["IfBranchMismatch".to_string()]);
    assert_eq!(cache.diagnostics[0].location, at(7));
}

#[test]
fn a_call_with_too_many_arguments_is_reported() {
    let mut cache = cache_with(1);
    let mut ast = call(lambda(vec![named(0)], truth()), vec![letter(), letter()]);
    type_of(&mut ast, &mut cache);
    assert_eq!(cache.error_count(), 1);
    assert!(matches!(
        cache.diagnostics[0].kind,
        DiagnosticKind::FunctionParameterCountMismatch(_, 2, 1)
    ));
}

#[test]
fn a_call_of_what_is_no_function_is_reported() {
    let mut cache = cache_with(0);
    let mut ast = call(truth(), vec![letter()]);
    type_of(&mut ast, &mut cache);
    assert_eq!(reasons(&cache), vec!["CalledValueIsNotAFunction".to_string()]);
}

#[test]
fn effects_that_are_no_row_never_fit() {
    let mut cache = cache_with(1);
    let function = FunctionType {
        parameters: vec![],
        return_type: Box::new(boolean()),
        environment: Box::new(boolean()),
        effects: Box::new(boolean()),
        has_varargs: false,
    };
    cache.definition_infos[0].typ =
        Some(GeneralizedType::MonoType(Type::Function(function)));
    let mut ast = call(use_of(0), vec![]);
    type_of(&mut ast, &mut cache);
    assert_eq!(cache.error_count(), 1);
    assert_eq!(reasons(&cache), vec!["NeverShown".to_string()]);
}

#[test]
fn a_sequence_has_the_type_of_its_last_statement() {
    let mut cache = cache_with(0);
    let mut ast = Ast::Sequence(Sequence {
        statements: vec![truth(), letter()],
        location: at(8),
        typ: None,
    });
    assert_eq!(type_of(&mut ast, &mut cache), character());
}

#[test]
fn an_annotated_expression_has_the_annotated_type() {
    let mut cache = cache_with(0);
    let mut good = Ast::Annotation(TypeAnnotation {
        lhs: Box::new(truth()),
        location: at(9),
        typ: Some(boolean()),
    });
    assert_eq!(type_of(&mut good, &mut cache), boolean());
    assert_eq!(cache.error_count(), 0);
    let mut bad = Ast::Annotation(TypeAnnotation {
        lhs: Box::new(truth()),
        location: at(9),
        typ: Some(character()),
    });
    type_of(&mut bad, &mut cache);
    assert_eq!(reasons(&cache), vec!["DoesNotMatchAnnotatedType".to_string()]);
}

#[test]
fn a_return_stands_for_any_type() {
    let mut cache = cache_with(0);
    let mut ast =
        Ast::Return(Return { expression: Box::new(truth()), location: at(10), typ: None });
    assert!(matches!(type_of(&mut ast, &mut cache), Type::TypeVariable(_)));
}

#[test]
fn a_named_constructor_is_its_sequence() {
    let mut cache = cache_with(0);
    let mut ast =
        Ast::Named(NamedConstructor { sequence: Box::new(letter()), location: at(10), typ: None });
    assert_eq!(type_of(&mut ast, &mut cache), character());
}

#[test]
fn every_node_carries_a_type_afterwards() {
    let mut cache = cache_with(2);
    let mut ast = Ast::Named(NamedConstructor {
        sequence: Box::new(Ast::Sequence(Sequence {
            statements: vec![
                define(0, lambda(vec![named(1)], use_of(1)), 2),
                call(use_of(0), vec![truth()]),
            ],
            location: at(8),
            typ: None,
        })),
        location: at(10),
        typ: None,
    });
    infer(&mut ast, &mut cache).unwrap();
    assert_eq!(cache.error_count(), 0);
    let sequence = match &ast {
        Ast::Named(node) => {
            assert!(node.typ.is_some());
            match &*node.sequence {
                Ast::Sequence(sequence) => sequence,
                _ => panic!("the sequence stays one"),
            }
        }
        _ => panic!("the constructor stays one"),
    };
    assert!(sequence.typ.is_some());
    match &sequence.statements[0] {
        Ast::Definition(node) => {
            assert_eq!(node.typ, Some(Type::unit()));
            assert!(node.pattern.get_type().is_some());
            match &*node.expr {
                Ast::Lambda(node) => {
                    assert!(node.typ.is_some());
                    assert!(node.args[0].get_type().is_some());
                    assert!(node.body.get_type().is_some());
                }
                _ => panic!("the value stays a function"),
            }
        }
        _ => panic!("the definition stays one"),
    }
    match &sequence.statements[1] {
        Ast::Call(node) => {
            assert!(node.typ.is_some());
            assert!(node.function.get_type().is_some());
            assert_eq!(node.args[0].get_type(), Some(&boolean()));
        }
        _ => panic!("the call stays one"),
    }
}

#[test]
fn what_was_bound_and_reported_stays() {
    let mut cache = cache_with(1);
    infer(&mut call(truth(), vec![letter()]), &mut cache).unwrap();
    infer(&mut call(lambda(vec![named(0)], use_of(0)), vec![letter()]), &mut cache).unwrap();
    let bound = cache.type_bindings.len();
    let mut before = vec![];
    for id in 0..bound {
        before.push(resolved(&var(id), &cache));
    }
    assert_eq!(cache.error_count(), 1);
    infer(&mut call(letter(), vec![]), &mut cache).unwrap();
    assert_eq!(cache.error_count(), 2);
    assert_eq!(cache.diagnostics[0].location, at(5));
    for id in 0..bound {
        if before[id] != var(id) {
            assert_eq!(resolved(&var(id), &cache), resolved(&before[id], &cache));
        }
    }
    assert_eq!(cache.current_level, LetBindingLevel(1));
}

#[test]
fn declarations_of_types_and_imports_are_units() {
    let mut cache = cache_with(0);
    let mut types = TypeDefinition { location: at(1), typ: None };
    assert_eq!(types.infer_impl(&mut cache).unwrap().typ, Type::unit());
    let mut import = Import { location: at(1), typ: None };
    assert_eq!(import.infer_impl(&mut cache).unwrap().typ, Type::unit());
}

fn person(cache: &mut ModuleCache) -> Type {
    cache.type_infos.push(TypeInfo {
        args: vec![],
        body: TypeInfoBody::Struct(vec![
            Field { name: "initial".to_string(), typ: character() },
            Field { name: "adult".to_string(), typ: boolean() },
        ]),
    });
    Type::UserDefined(TypeInfoId(cache.type_infos.len() - 1))
}

fn access(lhs: Ast, field: &str, offset: Option<Mutability>) -> Ast {
    Ast::Access(MemberAccess {
        lhs: Box::new(lhs),
        field: field.to_string(),
        offset,
        location: at(11),
        typ: None,
    })
}

#[test]
fn a_field_has_its_declared_type() {
    let mut cache = cache_with(1);
    let typ = person(&mut cache);
    cache.definition_infos[0].typ = Some(GeneralizedType::MonoType(typ));
    assert_eq!(type_of(&mut access(use_of(0), "adult", None), &mut cache), boolean());
    assert_eq!(cache.error_count(), 0);
    type_of(&mut access(use_of(0), "height", None), &mut cache);
    assert_eq!(reasons(&cache), vec!["NoFieldOfType(\"height\")".to_string()]);
}

#[test]
fn a_field_offset_is_a_reference() {
    let mut cache = cache_with(1);
    let typ = person(&mut cache);
    cache.definition_infos[0].typ = Some(GeneralizedType::MonoType(typ));
    cache.definition_infos[0].mutable = true;
    let t = type_of(&mut access(use_of(0), "adult", Some(Mutability::Mutable)), &mut cache);
    assert_eq!(cache.error_count(), 0);
    match t {
        Type::TypeApplication(constructor, args) => {
            assert_eq!(args, vec![boolean()]);
            match *constructor {
                Type::Ref { mutability, .. } => {
                    assert_eq!(*mutability, Type::Tag(TypeTag::Mutable));
                }
                _ => panic!("an offset is a reference"),
            }
        }
        _ => panic!("an offset is a reference"),
    }
}

#[test]
fn a_field_of_an_immutable_variable_is_not_mutated() {
    let mut cache = cache_with(1);
    let typ = person(&mut cache);
    cache.definition_infos[0].typ = Some(GeneralizedType::MonoType(typ));
    type_of(&mut access(use_of(0), "adult", Some(Mutability::Mutable)), &mut cache);
    assert_eq!(cache.error_count(), 1);
    match &cache.diagnostics[0].kind {
        DiagnosticKind::MutRefToImmutableVariable(name) => assert_eq!(*name, "x".to_string()),
        _ => panic!("the variable is immutable"),
    }
}

#[test]
fn a_field_of_a_temporary_is_not_mutated() {
    let mut cache = cache_with(1);
    let typ = person(&mut cache);
    cache.definition_infos[0].typ = Some(GeneralizedType::MonoType(typ));
    let temporary = call(lambda(vec![], use_of(0)), vec![]);
    type_of(&mut access(temporary, "adult", Some(Mutability::Mutable)), &mut cache);
    assert_eq!(cache.error_count(), 1);
    assert!(matches!(cache.diagnostics[0].kind, DiagnosticKind::MutRefToTemporary));
}

#[test]
fn a_field_is_found_through_a_reference() {
    let mut cache = cache_with(1);
    let typ = person(&mut cache);
    cache.definition_infos[0].typ = Some(GeneralizedType::MonoType(typ));
    let reference = Ast::Reference(Reference {
        mutability: Mutability::Immutable,
        expression: Box::new(use_of(0)),
        location: at(12),
        typ: None,
    });
    assert_eq!(type_of(&mut access(reference, "initial", None), &mut cache), character());
    assert_eq!(cache.error_count(), 0);
}

fn assign(lhs: Ast, rhs: Ast) -> Ast {
    Ast::Assignment(Assignment {
        lhs: Box::new(lhs),
        references: vec![],
        rhs: Box::new(rhs),
        location: at(13),
        typ: None,
    })
}

#[test]
fn a_mutable_variable_is_assigned_by_reference() {
    let mut cache = cache_with(1);
    cache.definition_infos[0].typ = Some(GeneralizedType::MonoType(boolean()));
    cache.definition_infos[0].mutable = true;
    let mut ast = assign(use_of(0), truth());
    assert_eq!(type_of(&mut ast, &mut cache), Type::unit());
    assert_eq!(reasons(&cache), Vec::<String>::new());
    match ast {
        Ast::Assignment(node) => {
            // A mutable reference stands in the place of the variable, and carries a type.
            assert_eq!(node.references.len(), 1);
            let reference = &node.references[0];
            assert_eq!(reference.mutability, Mutability::Mutable);
            assert_eq!(reference.location, at(13));
            match reference.typ.clone().unwrap() {
                Type::TypeApplication(constructor, args) => {
                    assert_eq!(args, vec![boolean()]);
                    match *constructor {
                        Type::Ref { mutability, .. } => {
                            assert_eq!(*mutability, Type::Tag(TypeTag::Mutable));
                        }
                        _ => panic!("a reference"),
                    }
                }
                _ => panic!("a reference to a boolean"),
            }
        }
        _ => panic!("an assignment stays one"),
    }
}

#[test]
fn an_assignment_through_a_reference_is_inferred_again() {
    let mut cache = cache_with(1);
    cache.definition_infos[0].typ = Some(GeneralizedType::MonoType(boolean()));
    cache.definition_infos[0].mutable = true;
    let mut ast = assign(use_of(0), truth());
    type_of(&mut ast, &mut cache);
    // The left-hand side is a mutable reference to a boolean now, and fits as it is.
    let variables = cache.type_bindings.len();
    assert_eq!(type_of(&mut ast, &mut cache), Type::unit());
    assert!(cache.type_bindings.len() > variables);
    assert_eq!(reasons(&cache), Vec::<String>::new());
    match &ast {
        Ast::Assignment(node) => {
            assert_eq!(node.references.len(), 1);
            match node.references[0].typ.clone() {
                Some(Type::TypeApplication(_, args)) => assert_eq!(args, vec![boolean()]),
                _ => panic!("a reference to a boolean"),
            }
        }
        _ => panic!("an assignment stays one"),
    }
}

#[test]
fn a_value_of_another_type_is_not_assigned() {
    let mut cache = cache_with(1);
    cache.definition_infos[0].typ = Some(GeneralizedType::MonoType(boolean()));
    cache.definition_infos[0].mutable = true;
    type_of(&mut assign(use_of(0), letter()), &mut cache);
    assert_eq!(reasons(&cache), vec!["AssignToNonMutRef".to_string()]);
    // Through a mutable reference, either.
    let reference = Ast::Reference(Reference {
        mutability: Mutability::Mutable,
        expression: Box::new(use_of(0)),
        location: at(12),
        typ: None,
    });
    let mut ast = assign(reference, letter());
    type_of(&mut ast, &mut cache);
    assert_eq!(
        reasons(&cache),
        vec!["AssignToNonMutRef".to_string(), "AssignToWrongType".to_string()]
    );
    match ast {
        Ast::Assignment(node) => assert!(node.references.is_empty()),
        _ => panic!("an assignment stays one"),
    }
}

#[test]
fn the_branches_of_a_match_have_one_type() {
    let mut cache = cache_with(0);
    let branch = |pattern: Ast, body: Ast| Branch { pattern, body };
    let mut good = Match {
        expression: Box::new(truth()),
        branches: vec![branch(truth(), letter()), branch(truth(), letter())],
        location: at(14),
        typ: None,
    };
    let (result, compile) = good.infer_branches(&mut cache).unwrap();
    assert_eq!(resolved(&result.typ, &cache), character());
    assert!(compile);
    let mut bad = Match {
        expression: Box::new(truth()),
        branches: vec![branch(letter(), letter()), branch(truth(), truth())],
        location: at(14),
        typ: None,
    };
    let (_, compile) = bad.infer_branches(&mut cache).unwrap();
    assert!(!compile);
    assert_eq!(
        reasons(&cache),
        vec!["MatchPatternTypeDiffers".to_string(), "MatchReturnTypeDiffers".to_string()]
    );
}

#[test]
fn a_match_without_branches_stands_for_any_type() {
    let mut cache = cache_with(0);
    let mut ast = Ast::Match(Match {
        expression: Box::new(truth()),
        branches: vec![],
        location: at(14),
        typ: None,
    });
    assert!(matches!(type_of(&mut ast, &mut cache), Type::TypeVariable(_)));
}

#[test]
fn a_closure_has_the_types_of_its_captures() {
    // Definition 0 is captured as definition 1.
    let mut cache = cache_with(2);
    cache.definition_infos[0].typ = Some(GeneralizedType::MonoType(character()));
    let mut ast = Ast::Lambda(Lambda {
        args: vec![],
        closure_environment: vec![Capture {
            from: DefinitionInfoId(0),
            to: DefinitionInfoId(1),
            bindings: HashMap::new(),
        }],
        body: Box::new(use_of(1)),
        location: at(4),
        typ: None,
    });
    match type_of(&mut ast, &mut cache) {
        Type::Function(function) => {
            assert_eq!(*function.return_type, character());
            assert_eq!(*function.environment, character());
        }
        _ => panic!("a lambda is a function"),
    }
}

#[test]
fn a_declared_return_type_is_checked() {
    let mut cache = cache_with(0);
    let body = Ast::Literal(Literal {
        kind: LiteralKind::Bool,
        location: at(1),
        typ: Some(character()),
    });
    infer(&mut lambda(vec![], body), &mut cache).unwrap();
    assert_eq!(reasons(&cache), vec!["FunctionBodyDoesNotMatchReturnType".to_string()]);
}

#[test]
fn an_unknown_definition_gives_no_result() {
    let mut cache = cache_with(0);
    assert!(infer(&mut use_of(0), &mut cache).is_none());
    let mut nested = cache_with(1);
    nested.definition_infos[0].definition = Some(DefinitionKind::Parameter);
    match use_of(0) {
        Ast::Variable(node) => assert!(matches!(
            node.lookup(&mut nested),
            Some(VariableLookup::Nested(DefinitionInfoId(0), ImplScopeId(0), VariableId(0)))
        )),
        _ => panic!("a use of a variable"),
    }
}

#[test]
fn a_program_is_inferred_at_the_initial_level() {
    let mut cache = cache_with(0);
    cache.current_level = LetBindingLevel(7);
    let mut ast = truth();
    let result = infer_ast(&mut ast, &mut cache).unwrap();
    assert_eq!(result.typ, boolean());
    assert_eq!(cache.current_level, LetBindingLevel(0));
    assert!(finish_program(&result, &vec![], at(1), &mut cache).is_some());
    assert_eq!(cache.error_count(), 0);
}

