//! Syntax trees, as inference sees them: the model in which the rules are stated, and what a node
//! has to offer to be inferred.

use crate::cache::{
    Cache, DefinitionInfoId, ImplInfoId, ImplScopeId, Location, ModuleCache, TraitInfoId,
    VariableId,
};
use crate::definitions::Captured;
use crate::instantiate::Mutability;
use crate::patterns::{pats, Pat, Pattern};
use crate::results::{TypeResult, Typing};
use crate::rules::Place;
use crate::types::{EffectInfoId, FloatKind, IntegerKind, LetBindingLevel, Ty, Type};
use vstd::prelude::*;

verus! {

/// What kind of literal it is. An integer or a float may have its kind written with it.
#[derive(Debug, Clone, Copy, PartialEq, Eq, Structural)]
pub enum LiteralKind {
    Integer(Option<IntegerKind>),
    Float(Option<FloatKind>),
    String,
    Char,
    Bool,
    Unit,
}

/// The model of a declaration: a pattern and its declared type.
#[verifier::ext_equal]
pub struct Declared {
    pub lhs: Pat,
    pub typ: Option<Ty>,
}

/// The model of a reference that stands in the place of the expression it refers to.
pub struct Referred {
    pub mutability: Mutability,
    pub location: Location,
    pub typ: Option<Ty>,
}

/// The model of a syntax tree.
#[verifier::ext_equal]
pub enum Tree {
    Literal { kind: LiteralKind, location: Location, typ: Option<Ty> },
    Variable {
        definition: Option<DefinitionInfoId>,
        impl_scope: Option<ImplScopeId>,
        id: Option<VariableId>,
        /// What the variables of the definition's type were instantiated with.
        mapping: Map<usize, Ty>,
        location: Location,
        typ: Option<Ty>,
    },
    Lambda {
        parameters: Seq<Pat>,
        environment: Seq<Captured>,
        body: Box<Tree>,
        location: Location,
        typ: Option<Ty>,
    },
    FunctionCall { function: Box<Tree>, args: Seq<Tree>, location: Location, typ: Option<Ty> },
    Definition {
        pattern: Pat,
        expr: Box<Tree>,
        level: Option<LetBindingLevel>,
        location: Location,
        typ: Option<Ty>,
    },
    If {
        condition: Box<Tree>,
        consequence: Box<Tree>,
        otherwise: Box<Tree>,
        location: Location,
        typ: Option<Ty>,
    },
    Match {
        expression: Box<Tree>,
        patterns: Seq<Tree>,
        branches: Seq<Tree>,
        location: Location,
        typ: Option<Ty>,
    },
    TypeDefinition { location: Location, typ: Option<Ty> },
    TypeAnnotation { lhs: Box<Tree>, location: Location, typ: Option<Ty> },
    Import { location: Location, typ: Option<Ty> },
    TraitDefinition {
        declarations: Seq<Declared>,
        level: Option<LetBindingLevel>,
        location: Location,
        typ: Option<Ty>,
    },
    TraitImpl {
        trait_info: Option<TraitInfoId>,
        impl_id: Option<ImplInfoId>,
        trait_arg_types: Seq<Ty>,
        definitions: Seq<Tree>,
        location: Location,
        typ: Option<Ty>,
    },
    Return { expression: Box<Tree>, location: Location, typ: Option<Ty> },
    Sequence { statements: Seq<Tree>, location: Location, typ: Option<Ty> },
    Extern {
        declarations: Seq<Declared>,
        level: Option<LetBindingLevel>,
        location: Location,
        typ: Option<Ty>,
    },
    MemberAccess {
        lhs: Box<Tree>,
        field: Seq<char>,
        /// For an access that gives a reference to the field, what is asked of the reference.
        offset: Option<Mutability>,
        location: Location,
        typ: Option<Ty>,
    },
    Assignment {
        lhs: Box<Tree>,
        /// The references that were put in the place of the left-hand side, the innermost first.
        references: Seq<Referred>,
        rhs: Box<Tree>,
        location: Location,
        typ: Option<Ty>,
    },
    EffectDefinition {
        declarations: Seq<Declared>,
        effect_info: Option<EffectInfoId>,
        level: Option<LetBindingLevel>,
        location: Location,
        typ: Option<Ty>,
    },
    Handle {
        expression: Box<Tree>,
        patterns: Seq<Tree>,
        branches: Seq<Tree>,
        resumes: Seq<DefinitionInfoId>,
        effects_handled: Seq<Ty>,
        location: Location,
        typ: Option<Ty>,
    },
    NamedConstructor { sequence: Box<Tree>, location: Location, typ: Option<Ty> },
    Reference {
        mutability: Mutability,
        expression: Box<Tree>,
        location: Location,
        typ: Option<Ty>,
    },
}

impl Tree {
    /// The type that the node carries.
    pub open spec fn type_of(self) -> Option<Ty> {
        match self {
            Tree::Literal { typ, .. } => typ,
            Tree::Variable { typ, .. } => typ,
            Tree::Lambda { typ, .. } => typ,
            Tree::FunctionCall { typ, .. } => typ,
            Tree::Definition { typ, .. } => typ,
            Tree::If { typ, .. } => typ,
            Tree::Match { typ, .. } => typ,
            Tree::TypeDefinition { typ, .. } => typ,
            Tree::TypeAnnotation { typ, .. } => typ,
            Tree::Import { typ, .. } => typ,
            Tree::TraitDefinition { typ, .. } => typ,
            Tree::TraitImpl { typ, .. } => typ,
            Tree::Return { typ, .. } => typ,
            Tree::Sequence { typ, .. } => typ,
            Tree::Extern { typ, .. } => typ,
            Tree::MemberAccess { typ, .. } => typ,
            Tree::Assignment { typ, .. } => typ,
            Tree::EffectDefinition { typ, .. } => typ,
            Tree::Handle { typ, .. } => typ,
            Tree::NamedConstructor { typ, .. } => typ,
            Tree::Reference { typ, .. } => typ,
        }
    }

    /// The place of the node.
    pub open spec fn location_of(self) -> Location {
        match self {
            Tree::Literal { location, .. } => location,
            Tree::Variable { location, .. } => location,
            Tree::Lambda { location, .. } => location,
            Tree::FunctionCall { location, .. } => location,
            Tree::Definition { location, .. } => location,
            Tree::If { location, .. } => location,
            Tree::Match { location, .. } => location,
            Tree::TypeDefinition { location, .. } => location,
            Tree::TypeAnnotation { location, .. } => location,
            Tree::Import { location, .. } => location,
            Tree::TraitDefinition { location, .. } => location,
            Tree::TraitImpl { location, .. } => location,
            Tree::Return { location, .. } => location,
            Tree::Sequence { location, .. } => location,
            Tree::Extern { location, .. } => location,
            Tree::MemberAccess { location, .. } => location,
            Tree::Assignment { location, .. } => location,
            Tree::EffectDefinition { location, .. } => location,
            Tree::Handle { location, .. } => location,
            Tree::NamedConstructor { location, .. } => location,
            Tree::Reference { location, .. } => location,
        }
    }

    /// The node with another type.
    pub open spec fn with_type(self, t: Ty) -> Tree {
        let typ = Some(t);
        match self {
            Tree::Literal { kind, location, .. } => Tree::Literal { kind, location, typ },
            Tree::Variable { definition, impl_scope, id, mapping, location, .. } => {
                Tree::Variable { definition, impl_scope, id, mapping, location, typ }
            },
            Tree::Lambda { parameters, environment, body, location, .. } => {
                Tree::Lambda { parameters, environment, body, location, typ }
            },
            Tree::FunctionCall { function, args, location, .. } => {
                Tree::FunctionCall { function, args, location, typ }
            },
            Tree::Definition { pattern, expr, level, location, .. } => {
                Tree::Definition { pattern, expr, level, location, typ }
            },
            Tree::If { condition, consequence, otherwise, location, .. } => {
                Tree::If { condition, consequence, otherwise, location, typ }
            },
            Tree::Match { expression, patterns, branches, location, .. } => {
                Tree::Match { expression, patterns, branches, location, typ }
            },
            Tree::TypeDefinition { location, .. } => Tree::TypeDefinition { location, typ },
            Tree::TypeAnnotation { lhs, location, .. } => {
                Tree::TypeAnnotation { lhs, location, typ }
            },
            Tree::Import { location, .. } => Tree::Import { location, typ },
            Tree::TraitDefinition { declarations, level, location, .. } => {
                Tree::TraitDefinition { declarations, level, location, typ }
            },
            Tree::TraitImpl {
                trait_info,
                impl_id,
                trait_arg_types,
                definitions,
                location,
                ..
            } => {
                Tree::TraitImpl {
                    trait_info,
                    impl_id,
                    trait_arg_types,
                    definitions,
                    location,
                    typ,
                }
            },
            Tree::Return { expression, location, .. } => {
                Tree::Return { expression, location, typ }
            },
            Tree::Sequence { statements, location, .. } => {
                Tree::Sequence { statements, location, typ }
            },
            Tree::Extern { declarations, level, location, .. } => {
                Tree::Extern { declarations, level, location, typ }
            },
            Tree::MemberAccess { lhs, field, offset, location, .. } => {
                Tree::MemberAccess { lhs, field, offset, location, typ }
            },
            Tree::Assignment { lhs, references, rhs, location, .. } => {
                Tree::Assignment { lhs, references, rhs, location, typ }
            },
            Tree::EffectDefinition { declarations, effect_info, level, location, .. } => {
                Tree::EffectDefinition { declarations, effect_info, level, location, typ }
            },
            Tree::Handle {
                expression,
                patterns,
                branches,
                resumes,
                effects_handled,
                location,
                ..
            } => {
                Tree::Handle {
                    expression,
                    patterns,
                    branches,
                    resumes,
                    effects_handled,
                    location,
                    typ,
                }
            },
            Tree::NamedConstructor { sequence, location, .. } => {
                Tree::NamedConstructor { sequence, location, typ }
            },
            Tree::Reference { mutability, expression, location, .. } => {
                Tree::Reference { mutability, expression, location, typ }
            },
        }
    }

    /// What the node refers to, where it is to be mutated.
    pub open spec fn place_of(self) -> Place {
        match self {
            Tree::Variable { definition, location, .. } => Place::Variable(definition, location),
            Tree::MemberAccess { .. } => Place::MemberAccess,
            _ => Place::Temporary(self.location_of()),
        }
    }

    /// For an assignment, the node that is assigned to: the left-hand side, inside the references
    /// that were put in its place.
    pub open spec fn assignee(self) -> Option<Tree> {
        match self {
            Tree::Assignment { lhs, references, .. } => Some(
                (*lhs).inside_references(references.len(), references),
            ),
            _ => None,
        }
    }

    /// The node inside the first `n` of the references.
    pub open spec fn inside_references(self, n: nat, references: Seq<Referred>) -> Tree
        decreases n,
    {
        if n == 0 {
            self
        } else {
            let r = references[n - 1];
            Tree::Reference {
                mutability: r.mutability,
                expression: Box::new(self.inside_references((n - 1) as nat, references)),
                location: r.location,
                typ: r.typ,
            }
        }
    }

    /// For a function, its parameters and the type that its body carries.
    pub open spec fn lambda_of(self) -> Option<(Seq<Pat>, Option<Ty>)> {
        match self {
            Tree::Lambda { parameters, body, .. } => Some((parameters, body.type_of())),
            _ => None,
        }
    }
}

/// What inference comes to: the tree with all that was noted in it, the result and the cache.
#[verifier::ext_equal]
pub struct Outcome {
    pub tree: Tree,
    pub result: Typing,
    pub cache: Cache,
}

/// Whether a result, and the tree and the cache left behind, are those of an outcome.
pub open spec fn is_inferred(
    r: Option<TypeResult>,
    t: Tree,
    c: Cache,
    m: Option<Outcome>,
) -> bool {
    match m {
        Some(o) => r is Some && r->0@ == o.result && t == o.tree && c == o.cache,
        None => r is None,
    }
}

/// A node of a syntax tree.
pub trait Node {
    spec fn tree(&self) -> Tree;
}

/// A node with a place in the source.
pub trait Locatable: Node {
    fn locate(&self) -> (r: Location)
        ensures
            r == self.tree().location_of(),
    ;
}

/// A node that carries a type once it was inferred.
pub trait Typed: Node {
    fn get_type(&self) -> (r: Option<&Type>)
        ensures
            match self.tree().type_of() {
                Some(t) => r is Some && r->0@ == t,
                None => r is None,
            },
    ;

    fn set_type(&mut self, typ: Type)
        ensures
            final(self).tree() == old(self).tree().with_type(typ@),
    ;
}

/// A node whose type can be inferred. Its rule says what that comes to, for each tree and cache;
/// `None` where it is not defined. A node whose inference asks other passes, or reads nodes that
/// it shares with others, has such a rule only as far as their answers depend on the tree and the
/// cache alone.
pub trait Inferable: Node {
    spec fn rule(t: Tree, c: Cache) -> Option<Outcome>;

    fn infer_impl(&mut self, cache: &mut ModuleCache) -> (r: Option<TypeResult>)
        ensures
            is_inferred(
                r,
                final(self).tree(),
                final(cache)@,
                Self::rule(old(self).tree(), old(cache)@),
            ),
    ;
}

/// A node that stands as part of another.
pub trait Expression: Inferable + Typed + Locatable {
    /// What the node refers to, where it is to be mutated.
    fn place(&self) -> (r: Place)
        ensures
            r == self.tree().place_of(),
    ;

    /// For a function, its parameters and the type that its body carries.
    fn as_lambda(&self) -> (r: Option<(&Vec<Pattern>, Option<&Type>)>)
        ensures
            match self.tree().lambda_of() {
                Some((args, typ)) => r matches Some((patterns, declared)) && pats(patterns@) == args
                    && match typ {
                    Some(t) => declared is Some && declared->0@ == t,
                    None => declared is None,
                },
                None => r is None,
            },
    ;
}

/// The outcome of inferring a node and noting the type in it.
pub open spec fn inferred<T: Inferable>(t: Tree, c: Cache) -> Option<Outcome> {
    match T::rule(t, c) {
        Some(o) => Some(Outcome { tree: o.tree.with_type(o.result.typ), ..o }),
        None => None,
    }
}

/// Infers the type of a node and notes it there.
pub fn infer<T: Inferable + Typed>(ast: &mut T, cache: &mut ModuleCache) -> (r: Option<TypeResult>)
    ensures
        is_inferred(
            r,
            final(ast).tree(),
            final(cache)@,
            inferred::<T>(old(ast).tree(), old(cache)@),
        ),
{
    let result = ast.infer_impl(cache)?;
    ast.set_type(result.typ.clone());
    Some(result)
}

/// The models of several nodes.
pub open spec fn trees<A: Node>(v: Seq<A>) -> Seq<Tree> {
    Seq::new(v.len(), |i: int| v[i].tree())
}

} // verus!
