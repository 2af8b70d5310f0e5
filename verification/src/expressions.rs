//! The plain expressions: literals, branches on a condition, sequences, references.

use crate::cache::{Cache, Location, ModuleCache, Reason, TypeErrorKind};
use crate::instantiate::Mutability;
use crate::patterns::{opt_ty, Pattern};
use crate::results::{
    applied, bool_ty, combined_results, result_of, unit_ty, TypeResult, Typing, STRING_TYPE,
};
use crate::rules::{apply_to_one, at_one, check_field_access_lhs_is_mutable, place_checked, Place};
use crate::solve::{after_unify, unify_or_report};
use crate::subst::{next_type_variable, next_type_variable_id};
use crate::tree::{
    infer, inferred, trees, Expression, Inferable, LiteralKind, Locatable, Node, Outcome, Tree,
    Typed,
};
use crate::types::{PrimitiveType, Ty, Type, TypeInfoId, TypeTag};
use vstd::prelude::*;

verus! {

/// A literal.
#[derive(Debug)]
pub struct Literal {
    pub kind: LiteralKind,
    pub location: Location,
    pub typ: Option<Type>,
}

impl Node for Literal {
    open spec fn tree(&self) -> Tree {
        Tree::Literal { kind: self.kind, location: self.location, typ: opt_ty(self.typ) }
    }
}

impl Locatable for Literal {
    fn locate(&self) -> (r: Location) {
        self.location
    }
}

impl Typed for Literal {
    fn get_type(&self) -> (r: Option<&Type>) {
        self.typ.as_ref()
    }

    fn set_type(&mut self, typ: Type) {
        self.typ = Some(typ);
    }
}

/// The type of a literal, and the cache with the fresh variable for a kind that was not written.
pub open spec fn literal_type(kind: LiteralKind, c: Cache) -> (Ty, Cache) {
    let fresh = c.fresh(c.current_level);
    let var = Ty::Variable(c.next_id());
    match kind {
        LiteralKind::Integer(Some(kind)) => (
            applied(
                PrimitiveType::IntegerType,
                Ty::Primitive(PrimitiveType::IntegerTag(kind)),
            ),
            c,
        ),
        LiteralKind::Integer(None) => (applied(PrimitiveType::IntegerType, var), fresh),
        LiteralKind::Float(Some(kind)) => (
            applied(PrimitiveType::FloatType, Ty::Primitive(PrimitiveType::FloatTag(kind))),
            c,
        ),
        LiteralKind::Float(None) => (applied(PrimitiveType::FloatType, var), fresh),
        LiteralKind::String => (Ty::UserDefined(TypeInfoId(STRING_TYPE)), c),
        LiteralKind::Char => (Ty::Primitive(PrimitiveType::CharType), c),
        LiteralKind::Bool => (bool_ty(), c),
        LiteralKind::Unit => (unit_ty(), c),
    }
}

/// The outcome for a node that is left as it is: the type, without any constraints.
pub open spec fn plain_outcome(t: Tree, typ: Ty, c: Cache) -> Outcome {
    let (result, cache) = result_of(typ, Seq::empty(), c);
    Outcome { tree: t, result, cache }
}

impl Inferable for Literal {
    open spec fn rule(t: Tree, c: Cache) -> Option<Outcome> {
        match t {
            Tree::Literal { kind, .. } => {
                let (typ, c1) = literal_type(kind, c);
                Some(plain_outcome(t, typ, c1))
            },
            _ => None,
        }
    }

    fn infer_impl(&mut self, cache: &mut ModuleCache) -> (r: Option<TypeResult>) {
        let typ = match self.kind {
            LiteralKind::Integer(Some(kind)) => Type::integer(kind),
            LiteralKind::Integer(None) => Type::polymorphic_int(next_type_variable_id(cache)),
            LiteralKind::Float(Some(kind)) => Type::float(kind),
            LiteralKind::Float(None) => Type::polymorphic_float(next_type_variable_id(cache)),
            LiteralKind::String => Type::UserDefined(TypeInfoId(STRING_TYPE)),
            LiteralKind::Char => Type::Primitive(PrimitiveType::CharType),
            LiteralKind::Bool => Type::Primitive(PrimitiveType::BooleanType),
            LiteralKind::Unit => Type::unit(),
        };
        Some(TypeResult::of(typ, cache))
    }
}

impl Expression for Literal {
    fn place(&self) -> (r: Place) {
        Place::Temporary(self.location)
    }

    fn as_lambda(&self) -> (r: Option<(&Vec<Pattern>, Option<&Type>)>) {
        None
    }
}

/// The declaration of a type. There is nothing to infer in it.
#[derive(Debug)]
pub struct TypeDefinition {
    pub location: Location,
    pub typ: Option<Type>,
}

impl Node for TypeDefinition {
    open spec fn tree(&self) -> Tree {
        Tree::TypeDefinition { location: self.location, typ: opt_ty(self.typ) }
    }
}

impl Locatable for TypeDefinition {
    fn locate(&self) -> (r: Location) {
        self.location
    }
}

impl Typed for TypeDefinition {
    fn get_type(&self) -> (r: Option<&Type>) {
        self.typ.as_ref()
    }

    fn set_type(&mut self, typ: Type) {
        self.typ = Some(typ);
    }
}

impl Inferable for TypeDefinition {
    open spec fn rule(t: Tree, c: Cache) -> Option<Outcome> {
        match t {
            Tree::TypeDefinition { .. } => Some(plain_outcome(t, unit_ty(), c)),
            _ => None,
        }
    }

    fn infer_impl(&mut self, cache: &mut ModuleCache) -> (r: Option<TypeResult>) {
        Some(TypeResult::of(Type::unit(), cache))
    }
}

impl Expression for TypeDefinition {
    fn place(&self) -> (r: Place) {
        Place::Temporary(self.location)
    }

    fn as_lambda(&self) -> (r: Option<(&Vec<Pattern>, Option<&Type>)>) {
        None
    }
}

/// The import of a module. Its definitions are inferred where they are used.
#[derive(Debug)]
pub struct Import {
    pub location: Location,
    pub typ: Option<Type>,
}

impl Node for Import {
    open spec fn tree(&self) -> Tree {
        Tree::Import { location: self.location, typ: opt_ty(self.typ) }
    }
}

impl Locatable for Import {
    fn locate(&self) -> (r: Location) {
        self.location
    }
}

impl Typed for Import {
    fn get_type(&self) -> (r: Option<&Type>) {
        self.typ.as_ref()
    }

    fn set_type(&mut self, typ: Type) {
        self.typ = Some(typ);
    }
}

impl Inferable for Import {
    open spec fn rule(t: Tree, c: Cache) -> Option<Outcome> {
        match t {
            Tree::Import { .. } => Some(plain_outcome(t, unit_ty(), c)),
            _ => None,
        }
    }

    fn infer_impl(&mut self, cache: &mut ModuleCache) -> (r: Option<TypeResult>) {
        Some(TypeResult::of(Type::unit(), cache))
    }
}

impl Expression for Import {
    fn place(&self) -> (r: Place) {
        Place::Temporary(self.location)
    }

    fn as_lambda(&self) -> (r: Option<(&Vec<Pattern>, Option<&Type>)>) {
        None
    }
}

/// An expression with the type that was declared for it.
#[derive(Debug)]
pub struct TypeAnnotation<A> {
    pub lhs: Box<A>,
    pub location: Location,
    pub typ: Option<Type>,
}

impl<A: Node> Node for TypeAnnotation<A> {
    open spec fn tree(&self) -> Tree {
        Tree::TypeAnnotation {
            lhs: Box::new(self.lhs.tree()),
            location: self.location,
            typ: opt_ty(self.typ),
        }
    }
}

impl<A: Node> Locatable for TypeAnnotation<A> {
    fn locate(&self) -> (r: Location) {
        self.location
    }
}

impl<A: Node> Typed for TypeAnnotation<A> {
    fn get_type(&self) -> (r: Option<&Type>) {
        self.typ.as_ref()
    }

    fn set_type(&mut self, typ: Type) {
        self.typ = Some(typ);
    }
}

impl<A: Expression> Inferable for TypeAnnotation<A> {
    open spec fn rule(t: Tree, c: Cache) -> Option<Outcome> {
        match t {
            Tree::TypeAnnotation { lhs, location, typ } => match (inferred::<A>(*lhs, c), typ) {
                (Some(o), Some(declared)) => match after_unify(
                    declared,
                    o.result.typ,
                    location,
                    Reason::DoesNotMatchAnnotatedType,
                    o.cache,
                ) {
                    Some(cache) => Some(
                        Outcome {
                            tree: Tree::TypeAnnotation { lhs: Box::new(o.tree), location, typ },
                            result: o.result,
                            cache,
                        },
                    ),
                    None => None,
                },
                _ => None,
            },
            _ => None,
        }
    }

    fn infer_impl(&mut self, cache: &mut ModuleCache) -> (r: Option<TypeResult>) {
        let lhs = infer(&mut *self.lhs, cache)?;
        match &self.typ {
            Some(declared) => {
                unify_or_report(
                    declared,
                    &lhs.typ,
                    self.location,
                    cache,
                    TypeErrorKind::DoesNotMatchAnnotatedType,
                )?;
                Some(lhs)
            },
            None => None,
        }
    }
}

impl<A: Expression> Expression for TypeAnnotation<A> {
    fn place(&self) -> (r: Place) {
        Place::Temporary(self.location)
    }

    fn as_lambda(&self) -> (r: Option<(&Vec<Pattern>, Option<&Type>)>) {
        None
    }
}

/// A branch on a condition.
#[derive(Debug)]
pub struct If<A> {
    pub condition: Box<A>,
    pub consequence: Box<A>,
    pub otherwise: Box<A>,
    pub location: Location,
    pub typ: Option<Type>,
}

impl<A: Node> Node for If<A> {
    open spec fn tree(&self) -> Tree {
        Tree::If {
            condition: Box::new(self.condition.tree()),
            consequence: Box::new(self.consequence.tree()),
            otherwise: Box::new(self.otherwise.tree()),
            location: self.location,
            typ: opt_ty(self.typ),
        }
    }
}

impl<A: Node> Locatable for If<A> {
    fn locate(&self) -> (r: Location) {
        self.location
    }
}

impl<A: Node> Typed for If<A> {
    fn get_type(&self) -> (r: Option<&Type>) {
        self.typ.as_ref()
    }

    fn set_type(&mut self, typ: Type) {
        self.typ = Some(typ);
    }
}

/// The next part inferred, and its result joined to that of the parts before. The first of the two
/// typings is the joint one, the second that of the part.
pub open spec fn infer_and_combine<A: Inferable>(part: Tree, so_far: Typing, c: Cache) -> Option<
    (Tree, Typing, Typing, Cache),
> {
    match inferred::<A>(part, c) {
        None => None,
        Some(o) => match combined_results(so_far, o.result, o.cache) {
            None => None,
            Some((joint, cache)) => Some((o.tree, joint, o.result, cache)),
        },
    }
}

impl<A: Expression> Inferable for If<A> {
    /// The condition has to be a boolean, and both branches have to be of one type, which is that
    /// of the whole.
    open spec fn rule(t: Tree, c: Cache) -> Option<Outcome> {
        match t {
            Tree::If { condition, consequence, otherwise, location, typ } => match inferred::<A>(
                *condition,
                c,
            ) {
                None => None,
                Some(o) => match after_unify(
                    bool_ty(),
                    o.result.typ,
                    o.tree.location_of(),
                    Reason::NonBoolInCondition,
                    o.cache,
                ) {
                    None => None,
                    Some(c1) => match infer_and_combine::<A>(*consequence, o.result, c1) {
                        None => None,
                        Some((consequence1, joint1, first, c2)) => match infer_and_combine::<A>(
                            *otherwise,
                            joint1,
                            c2,
                        ) {
                            None => None,
                            Some((otherwise1, joint2, second, c3)) => match after_unify(
                                first.typ,
                                second.typ,
                                location,
                                Reason::IfBranchMismatch,
                                c3,
                            ) {
                                None => None,
                                Some(cache) => Some(
                                    Outcome {
                                        tree: Tree::If {
                                            condition: Box::new(o.tree),
                                            consequence: Box::new(consequence1),
                                            otherwise: Box::new(otherwise1),
                                            location,
                                            typ,
                                        },
                                        result: joint2.with_type(first.typ),
                                        cache,
                                    },
                                ),
                            },
                        },
                    },
                },
            },
            _ => None,
        }
    }

    fn infer_impl(&mut self, cache: &mut ModuleCache) -> (r: Option<TypeResult>) {
        let mut result = infer(&mut *self.condition, cache)?;
        let bool_type = Type::Primitive(PrimitiveType::BooleanType);
        unify_or_report(
            &bool_type,
            &result.typ,
            self.condition.locate(),
            cache,
            TypeErrorKind::NonBoolInCondition,
        )?;
        let mut first = infer(&mut *self.consequence, cache)?;
        result.combine(&mut first, cache)?;
        let mut second = infer(&mut *self.otherwise, cache)?;
        result.combine(&mut second, cache)?;
        unify_or_report(
            &first.typ,
            &second.typ,
            self.location,
            cache,
            TypeErrorKind::IfBranchMismatch,
        )?;
        Some(result.with_type(first.typ))
    }
}

impl<A: Expression> Expression for If<A> {
    fn place(&self) -> (r: Place) {
        Place::Temporary(self.location)
    }

    fn as_lambda(&self) -> (r: Option<(&Vec<Pattern>, Option<&Type>)>) {
        None
    }
}

/// A return from the function around it.
#[derive(Debug)]
pub struct Return<A> {
    pub expression: Box<A>,
    pub location: Location,
    pub typ: Option<Type>,
}

impl<A: Node> Node for Return<A> {
    open spec fn tree(&self) -> Tree {
        Tree::Return {
            expression: Box::new(self.expression.tree()),
            location: self.location,
            typ: opt_ty(self.typ),
        }
    }
}

impl<A: Node> Locatable for Return<A> {
    fn locate(&self) -> (r: Location) {
        self.location
    }
}

impl<A: Node> Typed for Return<A> {
    fn get_type(&self) -> (r: Option<&Type>) {
        self.typ.as_ref()
    }

    fn set_type(&mut self, typ: Type) {
        self.typ = Some(typ);
    }
}

impl<A: Expression> Inferable for Return<A> {
    /// Whatever is returned, the expression itself is of any type: it does not come back.
    open spec fn rule(t: Tree, c: Cache) -> Option<Outcome> {
        match t {
            Tree::Return { expression, location, typ } => match inferred::<A>(*expression, c) {
                None => None,
                Some(o) => Some(
                    Outcome {
                        tree: Tree::Return { expression: Box::new(o.tree), location, typ },
                        result: o.result.with_type(Ty::Variable(o.cache.next_id())),
                        cache: o.cache.fresh(o.cache.current_level),
                    },
                ),
            },
            _ => None,
        }
    }

    fn infer_impl(&mut self, cache: &mut ModuleCache) -> (r: Option<TypeResult>) {
        let result = infer(&mut *self.expression, cache)?;
        Some(result.with_type(next_type_variable(cache)))
    }
}

impl<A: Expression> Expression for Return<A> {
    fn place(&self) -> (r: Place) {
        Place::Temporary(self.location)
    }

    fn as_lambda(&self) -> (r: Option<(&Vec<Pattern>, Option<&Type>)>) {
        None
    }
}

/// Expressions evaluated one after the other.
#[derive(Debug)]
pub struct Sequence<A> {
    pub statements: Vec<A>,
    pub location: Location,
    pub typ: Option<Type>,
}

impl<A: Node> Node for Sequence<A> {
    open spec fn tree(&self) -> Tree {
        Tree::Sequence {
            statements: trees(self.statements@),
            location: self.location,
            typ: opt_ty(self.typ),
        }
    }
}

impl<A: Node> Locatable for Sequence<A> {
    fn locate(&self) -> (r: Location) {
        self.location
    }
}

impl<A: Node> Typed for Sequence<A> {
    fn get_type(&self) -> (r: Option<&Type>) {
        self.typ.as_ref()
    }

    fn set_type(&mut self, typ: Type) {
        self.typ = Some(typ);
    }
}

/// What inferring the first `n` statements comes to: the statements, the joint result, the type of
/// the last one and the cache.
pub open spec fn infer_statements<A: Inferable>(
    n: nat,
    statements: Seq<Tree>,
    so_far: Typing,
    c: Cache,
) -> Option<(Seq<Tree>, Typing, Ty, Cache)>
    decreases n,
{
    if n == 0 {
        Some((Seq::empty(), so_far, so_far.typ, c))
    } else {
        match infer_statements::<A>((n - 1) as nat, statements, so_far, c) {
            None => None,
            Some((front, joint, _, c1)) => match infer_and_combine::<A>(
                statements[n - 1],
                joint,
                c1,
            ) {
                None => None,
                Some((last, joint2, own, c2)) => Some((front.push(last), joint2, own.typ, c2)),
            },
        }
    }
}

proof fn lemma_infer_statements_none<A: Inferable>(
    n: nat,
    m: nat,
    statements: Seq<Tree>,
    so_far: Typing,
    c: Cache,
)
    requires
        n <= m,
        infer_statements::<A>(n, statements, so_far, c) is None,
    ensures
        infer_statements::<A>(m, statements, so_far, c) is None,
    decreases m,
{
    if n < m {
        lemma_infer_statements_none::<A>(n, (m - 1) as nat, statements, so_far, c);
    }
}

impl<A: Expression> Inferable for Sequence<A> {
    /// The type is that of the last statement. There must be one.
    open spec fn rule(t: Tree, c: Cache) -> Option<Outcome> {
        match t {
            Tree::Sequence { statements, location, typ } => {
                let (start, c1) = result_of(unit_ty(), Seq::empty(), c);
                if statements.len() == 0 {
                    None
                } else {
                    match infer_statements::<A>(statements.len(), statements, start, c1) {
                        None => None,
                        Some((all, joint, last, cache)) => Some(
                            Outcome {
                                tree: Tree::Sequence { statements: all, location, typ },
                                result: joint.with_type(last),
                                cache,
                            },
                        ),
                    }
                }
            },
            _ => None,
        }
    }

    fn infer_impl(&mut self, cache: &mut ModuleCache) -> (r: Option<TypeResult>) {
        let ghost ts = trees(self.statements@);
        let n: usize = self.statements.len();
        assert(ts.len() == n);
        if n == 0 {
            return None;
        }
        let mut result = TypeResult::of(Type::unit(), cache);
        let ghost start = result@;
        let ghost c1 = cache@;
        let mut last = Type::unit();
        let mut i: usize = 0;
        assert(trees(self.statements@).take(0) =~= Seq::empty());
        while i < n
            invariant
                i <= n,
                n == self.statements.len(),
                n == ts.len(),
                n > 0,
                ts == trees(old(self).statements@),
                self.location == old(self).location,
                opt_ty(self.typ) == opt_ty(old(self).typ),
                result_of(unit_ty(), Seq::empty(), old(cache)@) == (start, c1),
                forall|j: int|
                    i <= j < n ==> (#[trigger] self.statements@[j]).tree() == ts[j],
                infer_statements::<A>(i as nat, ts, start, c1) == Some(
                    (trees(self.statements@).take(i as int), result@, last@, cache@),
                ),
            decreases n - i,
        {
            let ghost before = trees(self.statements@);
            assert(self.statements@[i as int].tree() == ts[i as int]);
            let statement = &mut self.statements[i];
            let done = infer(statement, cache);
            let mut own = match done {
                Some(own) => own,
                None => {
                    proof {
                        lemma_infer_statements_none::<A>((i + 1) as nat, ts.len(), ts, start, c1);
                    }
                    return None;
                },
            };
            let combined = result.combine(&mut own, cache);
            if combined.is_none() {
                proof {
                    lemma_infer_statements_none::<A>((i + 1) as nat, ts.len(), ts, start, c1);
                }
                return None;
            }
            last = own.typ;
            assert(trees(self.statements@).take(i + 1) =~= before.take(i as int).push(
                self.statements@[i as int].tree(),
            ));
            i += 1;
        }
        assert(trees(self.statements@).take(i as int) =~= trees(self.statements@));
        Some(result.with_type(last))
    }
}

impl<A: Expression> Expression for Sequence<A> {
    fn place(&self) -> (r: Place) {
        Place::Temporary(self.location)
    }

    fn as_lambda(&self) -> (r: Option<(&Vec<Pattern>, Option<&Type>)>) {
        None
    }
}

/// A constructor with named fields, which stands for the sequence that computes them and calls it.
#[derive(Debug)]
pub struct NamedConstructor<A> {
    pub sequence: Box<A>,
    pub location: Location,
    pub typ: Option<Type>,
}

impl<A: Node> Node for NamedConstructor<A> {
    open spec fn tree(&self) -> Tree {
        Tree::NamedConstructor {
            sequence: Box::new(self.sequence.tree()),
            location: self.location,
            typ: opt_ty(self.typ),
        }
    }
}

impl<A: Node> Locatable for NamedConstructor<A> {
    fn locate(&self) -> (r: Location) {
        self.location
    }
}

impl<A: Node> Typed for NamedConstructor<A> {
    fn get_type(&self) -> (r: Option<&Type>) {
        self.typ.as_ref()
    }

    fn set_type(&mut self, typ: Type) {
        self.typ = Some(typ);
    }
}

impl<A: Expression> Inferable for NamedConstructor<A> {
    open spec fn rule(t: Tree, c: Cache) -> Option<Outcome> {
        match t {
            Tree::NamedConstructor { sequence, location, typ } => match inferred::<A>(
                *sequence,
                c,
            ) {
                None => None,
                Some(o) => Some(
                    Outcome {
                        tree: Tree::NamedConstructor {
                            sequence: Box::new(o.tree),
                            location,
                            typ,
                        },
                        ..o
                    },
                ),
            },
            _ => None,
        }
    }

    fn infer_impl(&mut self, cache: &mut ModuleCache) -> (r: Option<TypeResult>) {
        infer(&mut *self.sequence, cache)
    }
}

impl<A: Expression> Expression for NamedConstructor<A> {
    fn place(&self) -> (r: Place) {
        Place::Temporary(self.location)
    }

    fn as_lambda(&self) -> (r: Option<(&Vec<Pattern>, Option<&Type>)>) {
        None
    }
}

/// A reference to the value of an expression.
#[derive(Debug)]
pub struct Reference<A> {
    pub mutability: Mutability,
    pub expression: Box<A>,
    pub location: Location,
    pub typ: Option<Type>,
}

impl<A: Node> Node for Reference<A> {
    open spec fn tree(&self) -> Tree {
        Tree::Reference {
            mutability: self.mutability,
            expression: Box::new(self.expression.tree()),
            location: self.location,
            typ: opt_ty(self.typ),
        }
    }
}

impl<A: Node> Locatable for Reference<A> {
    fn locate(&self) -> (r: Location) {
        self.location
    }
}

impl<A: Node> Typed for Reference<A> {
    fn get_type(&self) -> (r: Option<&Type>) {
        self.typ.as_ref()
    }

    fn set_type(&mut self, typ: Type) {
        self.typ = Some(typ);
    }
}

/// The tag that marks a reference of the given mutability. `None` where the mutability is not
/// fixed.
pub open spec fn tag_of(mutability: Mutability) -> Option<TypeTag> {
    match mutability {
        Mutability::Polymorphic => None,
        Mutability::Immutable => Some(TypeTag::Immutable),
        Mutability::Mutable => Some(TypeTag::Mutable),
    }
}

impl Mutability {
    /// The tag that marks a reference of this mutability.
    pub fn as_tag(self) -> (r: Option<TypeTag>)
        ensures
            r == tag_of(self),
    {
        match self {
            Mutability::Polymorphic => None,
            Mutability::Immutable => Some(TypeTag::Immutable),
            Mutability::Mutable => Some(TypeTag::Mutable),
        }
    }
}

/// The type of a shared reference to what has the given type, with a fresh lifetime.
pub open spec fn shared_reference(tag: TypeTag, t: Ty, c: Cache) -> (Ty, Cache) {
    let constructor = Ty::Ref {
        sharedness: Box::new(Ty::Tag(TypeTag::Shared)),
        mutability: Box::new(Ty::Tag(tag)),
        lifetime: Box::new(Ty::Variable(c.next_id())),
    };
    (at_one(constructor, t), c.fresh(c.current_level))
}

/// The type of a shared reference to what has the given type.
pub fn share(tag: TypeTag, typ: &Type, cache: &mut ModuleCache) -> (r: Type)
    ensures
        (r@, final(cache)@) == shared_reference(tag, typ@, old(cache)@),
{
    let mutability = Type::Tag(tag);
    let sharedness = Type::Tag(TypeTag::Shared);
    let lifetime = next_type_variable(cache);
    let ghost parts = (sharedness@, mutability@, lifetime@);
    let constructor = Type::Ref {
        sharedness: Box::new(sharedness),
        mutability: Box::new(mutability),
        lifetime: Box::new(lifetime),
    };
    assert(constructor@ == Ty::Ref {
        sharedness: Box::new(parts.0),
        mutability: Box::new(parts.1),
        lifetime: Box::new(parts.2),
    });
    apply_to_one(constructor, typ.clone())
}

/// The type of a reference to what stands in the given place and has the given type, and the cache
/// afterwards. Only what is mutable can be referred to mutably; a temporary value is.
pub open spec fn reference_typed(mutability: Mutability, place: Place, t: Ty, c: Cache) -> Option<
    (Ty, Cache),
> {
    let checked = if mutability == Mutability::Mutable {
        place_checked(place, true, c)
    } else {
        Some(c)
    };
    match (checked, tag_of(mutability)) {
        (Some(c1), Some(tag)) => Some(shared_reference(tag, t, c1)),
        _ => None,
    }
}

/// The type of a reference to what stands in the given place.
pub fn type_reference(
    mutability: Mutability,
    place: Place,
    typ: &Type,
    cache: &mut ModuleCache,
) -> (r: Option<Type>)
    ensures
        match reference_typed(mutability, place, typ@, old(cache)@) {
            None => r is None,
            Some((t, c)) => r is Some && r->0@ == t && final(cache)@ == c,
        },
{
    if mutability == Mutability::Mutable {
        check_field_access_lhs_is_mutable(place, true, cache)?;
    }
    let tag = mutability.as_tag()?;
    Some(share(tag, typ, cache))
}

impl<A: Expression> Inferable for Reference<A> {
    /// A shared reference to what the expression evaluates to.
    open spec fn rule(t: Tree, c: Cache) -> Option<Outcome> {
        match t {
            Tree::Reference { mutability, expression, location, typ } => match inferred::<A>(
                *expression,
                c,
            ) {
                None => None,
                Some(o) => match reference_typed(
                    mutability,
                    o.tree.place_of(),
                    o.result.typ,
                    o.cache,
                ) {
                    None => None,
                    Some((reference, cache)) => Some(
                        Outcome {
                            tree: Tree::Reference {
                                mutability,
                                expression: Box::new(o.tree),
                                location,
                                typ,
                            },
                            result: o.result.with_type(reference),
                            cache,
                        },
                    ),
                },
            },
            _ => None,
        }
    }

    fn infer_impl(&mut self, cache: &mut ModuleCache) -> (r: Option<TypeResult>) {
        let result = infer(&mut *self.expression, cache)?;
        let typ = type_reference(self.mutability, self.expression.place(), &result.typ, cache)?;
        Some(result.with_type(typ))
    }
}

impl<A: Expression> Expression for Reference<A> {
    fn place(&self) -> (r: Place) {
        Place::Temporary(self.location)
    }

    fn as_lambda(&self) -> (r: Option<(&Vec<Pattern>, Option<&Type>)>) {
        None
    }
}

} // verus!
