//! The tables that inference reads and fills: what each type variable is bound to, what is known
//! of each type, definition, trait and effect, and the diagnostics issued so far.

use crate::types::{
    clone_types, field_names, field_tys, tys, EffectSet, Field, FunctionType, Kind, LetBindingLevel,
    Ty, Type, TypeVariableId,
};
use vstd::prelude::*;

verus! {

/// The level of top-level definitions.
pub const INITIAL_LEVEL: usize = 1;

/// Names a definition: an index into the definition infos of a `ModuleCache`.
#[derive(Debug, Clone, Copy, PartialEq, Eq, PartialOrd, Ord, Hash, Structural)]
pub struct DefinitionInfoId(pub usize);

/// Names a trait: an index into the trait infos of a `ModuleCache`.
#[derive(Debug, Clone, Copy, PartialEq, Eq, PartialOrd, Ord, Hash, Structural)]
pub struct TraitInfoId(pub usize);

/// Names an impl: an index into the impl infos of a `ModuleCache`.
#[derive(Debug, Clone, Copy, PartialEq, Eq, PartialOrd, Ord, Hash, Structural)]
pub struct ImplInfoId(pub usize);

/// Names the set of impls that are visible at some place.
#[derive(Debug, Clone, Copy, PartialEq, Eq, PartialOrd, Ord, Hash, Structural)]
pub struct ImplScopeId(pub usize);

/// Names one use of a variable in the program.
#[derive(Debug, Clone, Copy, PartialEq, Eq, PartialOrd, Ord, Hash, Structural)]
pub struct VariableId(pub usize);

/// Names a trait constraint.
#[derive(Debug, Clone, Copy, PartialEq, Eq, PartialOrd, Ord, Hash, Structural)]
pub struct TraitConstraintId(pub usize);

/// A range of a source file.
#[derive(Debug, Clone, Copy, PartialEq, Eq, Hash, Structural)]
pub struct Location {
    pub file: usize,
    pub start: usize,
    pub end: usize,
}

impl Location {
    /// The location of what no source file holds.
    pub fn builtin() -> (r: Location)
        ensures
            r == (Location { file: 0, start: 0, end: 0 }),
    {
        Location { file: 0, start: 0, end: 0 }
    }
}

/// What a type variable stands for.
#[derive(Debug)]
pub enum TypeBinding {
    Bound(Type),
    Unbound(LetBindingLevel, Kind),
}

/// The model of a `TypeBinding`.
#[verifier::ext_equal]
pub enum Binding {
    Bound(Ty),
    Unbound(LetBindingLevel, Kind),
}

impl View for TypeBinding {
    type V = Binding;

    open spec fn view(&self) -> Binding {
        match self {
            TypeBinding::Bound(t) => Binding::Bound(t@),
            TypeBinding::Unbound(level, kind) => Binding::Unbound(*level, *kind),
        }
    }
}

impl Clone for TypeBinding {
    fn clone(&self) -> (r: Self)
        ensures
            r@ == self@,
    {
        match self {
            TypeBinding::Bound(t) => TypeBinding::Bound(t.clone()),
            TypeBinding::Unbound(level, kind) => TypeBinding::Unbound(*level, *kind),
        }
    }
}

/// A type, or a type with the variables that it is generic over.
#[derive(Debug)]
pub enum GeneralizedType {
    MonoType(Type),
    PolyType(Vec<TypeVariableId>, Type),
}

/// The model of a `GeneralizedType`.
#[verifier::ext_equal]
pub enum Scheme {
    Mono(Ty),
    Poly(Seq<TypeVariableId>, Ty),
}

impl Scheme {
    /// The type under the quantifier.
    pub open spec fn body(self) -> Ty {
        match self {
            Scheme::Mono(t) => t,
            Scheme::Poly(_, t) => t,
        }
    }
}

impl View for GeneralizedType {
    type V = Scheme;

    open spec fn view(&self) -> Scheme {
        match self {
            GeneralizedType::MonoType(t) => Scheme::Mono(t@),
            GeneralizedType::PolyType(vars, t) => Scheme::Poly(vars@, t@),
        }
    }
}

impl Clone for GeneralizedType {
    fn clone(&self) -> (r: Self)
        ensures
            r@ == self@,
    {
        match self {
            GeneralizedType::MonoType(t) => GeneralizedType::MonoType(t.clone()),
            GeneralizedType::PolyType(vars, t) => {
                GeneralizedType::PolyType(clone_ids(vars), t.clone())
            },
        }
    }
}

impl GeneralizedType {
    /// The type without its quantifier.
    pub fn remove_forall(&self) -> (r: &Type)
        ensures
            r@ == self@.body(),
    {
        match self {
            GeneralizedType::MonoType(t) => t,
            GeneralizedType::PolyType(_, t) => t,
        }
    }

    /// The type, which must not be generic.
    pub fn into_monotype(self) -> (r: Type)
        requires
            self is MonoType,
        ensures
            self@ == Scheme::Mono(r@),
    {
        match self {
            GeneralizedType::MonoType(t) => t,
            GeneralizedType::PolyType(_, t) => t,
        }
    }
}

/// A copy of the ids.
pub fn clone_ids(ids: &Vec<TypeVariableId>) -> (r: Vec<TypeVariableId>)
    ensures
        r@ == ids@,
{
    let mut r: Vec<TypeVariableId> = Vec::new();
    let mut i: usize = 0;
    while i < ids.len()
        invariant
            i <= ids.len(),
            r@ == ids@.take(i as int),
        decreases ids.len() - i,
    {
        r.push(ids[i]);
        i += 1;
        assert(ids@.take(i as int) =~= ids@.take(i - 1).push(ids@[i - 1]));
    }
    assert(ids@.take(i as int) =~= ids@);
    r
}

/// What a user-defined type is.
#[derive(Debug)]
pub enum TypeInfoBody {
    Alias(Type),
    Union,
    Struct(Vec<Field>),
    /// Not known yet.
    Unknown,
}

/// What is known of a user-defined type.
#[derive(Debug)]
pub struct TypeInfo {
    /// The variables that the type is generic over.
    pub args: Vec<TypeVariableId>,
    pub body: TypeInfoBody,
}

/// The model of a `TypeInfoBody`.
#[verifier::ext_equal]
pub enum InfoBody {
    Alias(Ty),
    Union,
    /// The names of the fields as declared, and their types.
    Struct(Seq<Seq<char>>, Seq<Ty>),
    Unknown,
}

/// The model of a `TypeInfo`.
#[verifier::ext_equal]
pub struct Info {
    pub args: Seq<TypeVariableId>,
    pub body: InfoBody,
}

impl View for TypeInfo {
    type V = Info;

    open spec fn view(&self) -> Info {
        Info {
            args: self.args@,
            body: match self.body {
                TypeInfoBody::Alias(t) => InfoBody::Alias(t@),
                TypeInfoBody::Union => InfoBody::Union,
                TypeInfoBody::Struct(fields) => InfoBody::Struct(
                    field_names(fields@),
                    field_tys(fields@),
                ),
                TypeInfoBody::Unknown => InfoBody::Unknown,
            },
        }
    }
}

/// Where a trait constraint arose: at a use of a variable, or through the constraints of one.
#[derive(Debug)]
pub enum Callsite {
    Direct(VariableId),
    Indirect(VariableId, Vec<TraitConstraintId>),
}

/// The model of a `Callsite`.
#[verifier::ext_equal]
pub enum Origin {
    Direct(VariableId),
    Indirect(VariableId, Seq<TraitConstraintId>),
}

impl View for Callsite {
    type V = Origin;

    open spec fn view(&self) -> Origin {
        match self {
            Callsite::Direct(v) => Origin::Direct(*v),
            Callsite::Indirect(v, ids) => Origin::Indirect(*v, ids@),
        }
    }
}

/// A trait at certain arguments, with the name of this constraint.
#[derive(Debug)]
pub struct ConstraintSignature {
    pub trait_id: TraitInfoId,
    pub args: Vec<Type>,
    pub id: TraitConstraintId,
}

/// The model of a `ConstraintSignature`.
#[verifier::ext_equal]
pub struct Signature {
    pub trait_id: TraitInfoId,
    pub args: Seq<Ty>,
    pub id: TraitConstraintId,
}

impl View for ConstraintSignature {
    type V = Signature;

    open spec fn view(&self) -> Signature {
        Signature { trait_id: self.trait_id, args: tys(self.args@), id: self.id }
    }
}

/// A trait that a definition requires of its users.
#[derive(Debug)]
pub struct RequiredTrait {
    pub signature: ConstraintSignature,
    pub callsite: Callsite,
}

/// The model of a `RequiredTrait`.
#[verifier::ext_equal]
pub struct Required {
    pub signature: Signature,
    pub callsite: Origin,
}

impl View for RequiredTrait {
    type V = Required;

    open spec fn view(&self) -> Required {
        Required { signature: self.signature@, callsite: self.callsite@ }
    }
}

impl Clone for ConstraintSignature {
    fn clone(&self) -> (r: Self)
        ensures
            r@ == self@,
    {
        ConstraintSignature {
            trait_id: self.trait_id,
            args: clone_types(&self.args),
            id: self.id,
        }
    }
}

impl Clone for Callsite {
    fn clone(&self) -> (r: Self)
        ensures
            r@ == self@,
    {
        match self {
            Callsite::Direct(v) => Callsite::Direct(*v),
            Callsite::Indirect(v, ids) => {
                let mut copy: Vec<TraitConstraintId> = Vec::new();
                let mut i: usize = 0;
                while i < ids.len()
                    invariant
                        i <= ids.len(),
                        copy@ == ids@.take(i as int),
                    decreases ids.len() - i,
                {
                    copy.push(ids[i]);
                    i += 1;
                    assert(ids@.take(i as int) =~= ids@.take(i - 1).push(ids@[i - 1]));
                }
                assert(ids@.take(i as int) =~= ids@);
                Callsite::Indirect(*v, copy)
            },
        }
    }
}

impl Clone for RequiredTrait {
    fn clone(&self) -> (r: Self)
        ensures
            r@ == self@,
    {
        RequiredTrait { signature: self.signature.clone(), callsite: self.callsite.clone() }
    }
}

/// A required trait together with the scope in which an impl for it is looked for.
#[derive(Debug)]
pub struct TraitConstraint {
    pub required: RequiredTrait,
    pub scope: ImplScopeId,
}

/// The model of a `TraitConstraint`.
#[verifier::ext_equal]
pub struct Constraint {
    pub required: Required,
    pub scope: ImplScopeId,
}

impl View for TraitConstraint {
    type V = Constraint;

    open spec fn view(&self) -> Constraint {
        Constraint { required: self.required@, scope: self.scope }
    }
}

impl Clone for TraitConstraint {
    fn clone(&self) -> (r: Self)
        ensures
            r@ == self@,
    {
        TraitConstraint { required: self.required.clone(), scope: self.scope }
    }
}

/// The constraints that evaluating something gives rise to.
pub type TraitConstraints = Vec<TraitConstraint>;

/// The models of constraints.
pub open spec fn constraints(v: Seq<TraitConstraint>) -> Seq<Constraint> {
    Seq::new(v.len(), |i: int| v[i]@)
}

/// The models of required traits.
pub open spec fn required_traits(v: Seq<RequiredTrait>) -> Seq<Required> {
    Seq::new(v.len(), |i: int| v[i]@)
}

/// The models of signatures.
pub open spec fn signatures(v: Seq<ConstraintSignature>) -> Seq<Signature> {
    Seq::new(v.len(), |i: int| v[i]@)
}

/// What kind of definition a variable refers to.
#[derive(Debug, Clone, Copy, PartialEq, Eq, Hash, Structural)]
pub enum DefinitionKind {
    Definition,
    TraitDefinition,
    EffectDefinition,
    Extern,
    Parameter,
    MatchPattern,
    TypeConstructor,
}

/// What is known of a definition.
#[derive(Debug)]
pub struct DefinitionInfo {
    pub name: String,
    pub definition: Option<DefinitionKind>,
    pub typ: Option<GeneralizedType>,
    pub required_traits: Vec<RequiredTrait>,
    /// For a member of a trait, the trait and the arguments it is declared at.
    pub trait_info: Option<(TraitInfoId, Vec<Type>)>,
    pub undergoing_type_inference: bool,
    pub mutable: bool,
}

/// The model of a `DefinitionInfo`.
#[verifier::ext_equal]
pub struct Def {
    pub name: Seq<char>,
    pub definition: Option<DefinitionKind>,
    pub typ: Option<Scheme>,
    pub required_traits: Seq<Required>,
    pub trait_info: Option<(TraitInfoId, Seq<Ty>)>,
    pub undergoing_type_inference: bool,
    pub mutable: bool,
}

impl View for DefinitionInfo {
    type V = Def;

    open spec fn view(&self) -> Def {
        Def {
            name: self.name@,
            definition: self.definition,
            typ: match self.typ {
                Some(t) => Some(t@),
                None => None,
            },
            required_traits: required_traits(self.required_traits@),
            trait_info: match self.trait_info {
                Some(info) => Some((info.0, tys(info.1@))),
                None => None,
            },
            undergoing_type_inference: self.undergoing_type_inference,
            mutable: self.mutable,
        }
    }
}

/// What is known of a trait.
#[derive(Debug)]
pub struct TraitInfo {
    pub typeargs: Vec<TypeVariableId>,
    pub fundeps: Vec<TypeVariableId>,
    pub definitions: Vec<DefinitionInfoId>,
}

/// The model of a `TraitInfo`.
#[verifier::ext_equal]
pub struct TraitDecl {
    pub typeargs: Seq<TypeVariableId>,
    pub fundeps: Seq<TypeVariableId>,
    pub definitions: Seq<DefinitionInfoId>,
}

impl View for TraitInfo {
    type V = TraitDecl;

    open spec fn view(&self) -> TraitDecl {
        TraitDecl {
            typeargs: self.typeargs@,
            fundeps: self.fundeps@,
            definitions: self.definitions@,
        }
    }
}

/// What is known of an impl.
#[derive(Debug)]
pub struct ImplInfo {
    /// The constraints in the `given` clause of the impl.
    pub given: Vec<ConstraintSignature>,
}

/// What is known of an effect.
#[derive(Debug)]
pub struct EffectInfo {
    pub typeargs: Vec<TypeVariableId>,
}

/// Why two types were to be unified: it selects the message shown when they do not.
#[derive(Debug)]
pub enum TypeErrorKind {
    NeverShown,
    ExpectedUnitTypeFromPattern,
    VariableDoesNotMatchDeclaredType,
    PatternTypeDoesNotMatchAnnotatedType,
    ExpectedPairTypeFromPattern,
    FunctionBodyDoesNotMatchReturnType,
    CalledValueIsNotAFunction,
    ArgumentTypeMismatch,
    NonBoolInCondition,
    IfBranchMismatch,
    MatchPatternTypeDiffers,
    MatchReturnTypeDiffers,
    DoesNotMatchAnnotatedType,
    NoFieldOfType(String),
    ExpectedMutable,
    AssignToNonMutRef,
    AssignToWrongType,
    HandleBranchMismatch,
    ResumeEnvironmentMismatch,
    ResumeEffectsMismatch,
}

/// The model of a `TypeErrorKind`.
#[verifier::ext_equal]
pub enum Reason {
    NeverShown,
    ExpectedUnitTypeFromPattern,
    VariableDoesNotMatchDeclaredType,
    PatternTypeDoesNotMatchAnnotatedType,
    ExpectedPairTypeFromPattern,
    FunctionBodyDoesNotMatchReturnType,
    CalledValueIsNotAFunction,
    ArgumentTypeMismatch,
    NonBoolInCondition,
    IfBranchMismatch,
    MatchPatternTypeDiffers,
    MatchReturnTypeDiffers,
    DoesNotMatchAnnotatedType,
    NoFieldOfType(Seq<char>),
    ExpectedMutable,
    AssignToNonMutRef,
    AssignToWrongType,
    HandleBranchMismatch,
    ResumeEnvironmentMismatch,
    ResumeEffectsMismatch,
}

impl View for TypeErrorKind {
    type V = Reason;

    open spec fn view(&self) -> Reason {
        match self {
            TypeErrorKind::NeverShown => Reason::NeverShown,
            TypeErrorKind::ExpectedUnitTypeFromPattern => Reason::ExpectedUnitTypeFromPattern,
            TypeErrorKind::VariableDoesNotMatchDeclaredType => {
                Reason::VariableDoesNotMatchDeclaredType
            },
            TypeErrorKind::PatternTypeDoesNotMatchAnnotatedType => {
                Reason::PatternTypeDoesNotMatchAnnotatedType
            },
            TypeErrorKind::ExpectedPairTypeFromPattern => Reason::ExpectedPairTypeFromPattern,
            TypeErrorKind::FunctionBodyDoesNotMatchReturnType => {
                Reason::FunctionBodyDoesNotMatchReturnType
            },
            TypeErrorKind::CalledValueIsNotAFunction => Reason::CalledValueIsNotAFunction,
            TypeErrorKind::ArgumentTypeMismatch => Reason::ArgumentTypeMismatch,
            TypeErrorKind::NonBoolInCondition => Reason::NonBoolInCondition,
            TypeErrorKind::IfBranchMismatch => Reason::IfBranchMismatch,
            TypeErrorKind::MatchPatternTypeDiffers => Reason::MatchPatternTypeDiffers,
            TypeErrorKind::MatchReturnTypeDiffers => Reason::MatchReturnTypeDiffers,
            TypeErrorKind::DoesNotMatchAnnotatedType => Reason::DoesNotMatchAnnotatedType,
            TypeErrorKind::NoFieldOfType(name) => Reason::NoFieldOfType(name@),
            TypeErrorKind::ExpectedMutable => Reason::ExpectedMutable,
            TypeErrorKind::AssignToNonMutRef => Reason::AssignToNonMutRef,
            TypeErrorKind::AssignToWrongType => Reason::AssignToWrongType,
            TypeErrorKind::HandleBranchMismatch => Reason::HandleBranchMismatch,
            TypeErrorKind::ResumeEnvironmentMismatch => Reason::ResumeEnvironmentMismatch,
            TypeErrorKind::ResumeEffectsMismatch => Reason::ResumeEffectsMismatch,
        }
    }
}

impl Clone for TypeErrorKind {
    fn clone(&self) -> (r: Self)
        ensures
            r@ == self@,
    {
        match self {
            TypeErrorKind::NeverShown => TypeErrorKind::NeverShown,
            TypeErrorKind::ExpectedUnitTypeFromPattern => {
                TypeErrorKind::ExpectedUnitTypeFromPattern
            },
            TypeErrorKind::VariableDoesNotMatchDeclaredType => {
                TypeErrorKind::VariableDoesNotMatchDeclaredType
            },
            TypeErrorKind::PatternTypeDoesNotMatchAnnotatedType => {
                TypeErrorKind::PatternTypeDoesNotMatchAnnotatedType
            },
            TypeErrorKind::ExpectedPairTypeFromPattern => {
                TypeErrorKind::ExpectedPairTypeFromPattern
            },
            TypeErrorKind::FunctionBodyDoesNotMatchReturnType => {
                TypeErrorKind::FunctionBodyDoesNotMatchReturnType
            },
            TypeErrorKind::CalledValueIsNotAFunction => TypeErrorKind::CalledValueIsNotAFunction,
            TypeErrorKind::ArgumentTypeMismatch => TypeErrorKind::ArgumentTypeMismatch,
            TypeErrorKind::NonBoolInCondition => TypeErrorKind::NonBoolInCondition,
            TypeErrorKind::IfBranchMismatch => TypeErrorKind::IfBranchMismatch,
            TypeErrorKind::MatchPatternTypeDiffers => TypeErrorKind::MatchPatternTypeDiffers,
            TypeErrorKind::MatchReturnTypeDiffers => TypeErrorKind::MatchReturnTypeDiffers,
            TypeErrorKind::DoesNotMatchAnnotatedType => TypeErrorKind::DoesNotMatchAnnotatedType,
            TypeErrorKind::NoFieldOfType(name) => TypeErrorKind::NoFieldOfType(name.clone()),
            TypeErrorKind::ExpectedMutable => TypeErrorKind::ExpectedMutable,
            TypeErrorKind::AssignToNonMutRef => TypeErrorKind::AssignToNonMutRef,
            TypeErrorKind::AssignToWrongType => TypeErrorKind::AssignToWrongType,
            TypeErrorKind::HandleBranchMismatch => TypeErrorKind::HandleBranchMismatch,
            TypeErrorKind::ResumeEnvironmentMismatch => TypeErrorKind::ResumeEnvironmentMismatch,
            TypeErrorKind::ResumeEffectsMismatch => TypeErrorKind::ResumeEffectsMismatch,
        }
    }
}

/// What a diagnostic reports. It holds the types themselves, to be shown with the bindings that
/// the diagnostic carries.
#[derive(Debug)]
pub enum DiagnosticKind {
    /// The actual and the expected type.
    TypeError(TypeErrorKind, Type, Type),
    TypeLengthMismatch(Vec<Type>, Vec<Type>),
    PatternIsNotIrrefutable,
    InvalidSyntaxInIrrefutablePattern,
    UnhandledEffectsInMain(EffectSet),
    /// The function's type, the number of arguments given and the number expected.
    FunctionParameterCountMismatch(FunctionType, usize, usize),
    /// The actual and the expected function.
    FunctionTypeMismatch(FunctionType, FunctionType),
    MutRefToImmutableVariable(String),
    MutRefToTemporary,
}

/// Something to tell the user, and the place it is about.
#[derive(Debug)]
pub struct Diagnostic {
    pub location: Location,
    pub kind: DiagnosticKind,
    /// What each type variable stood for when the error was found. The types are shown with these
    /// bindings: what is bound later does not change what is told.
    pub bindings: Vec<TypeBinding>,
}

/// The model of a `DiagnosticKind`.
#[verifier::ext_equal]
pub enum Report {
    TypeError(Reason, Ty, Ty),
    TypeLengthMismatch(Seq<Ty>, Seq<Ty>),
    PatternIsNotIrrefutable,
    InvalidSyntaxInIrrefutablePattern,
    UnhandledEffectsInMain(Ty),
    FunctionParameterCountMismatch(Ty, usize, usize),
    FunctionTypeMismatch(Ty, Ty),
    MutRefToImmutableVariable(Seq<char>),
    MutRefToTemporary,
}

/// The model of a `Diagnostic`.
#[verifier::ext_equal]
pub struct Issue {
    pub location: Location,
    pub report: Report,
    pub bindings: Seq<Binding>,
}

impl View for DiagnosticKind {
    type V = Report;

    open spec fn view(&self) -> Report {
        match self {
            DiagnosticKind::TypeError(kind, a, b) => Report::TypeError(kind@, a@, b@),
            DiagnosticKind::TypeLengthMismatch(a, b) => {
                Report::TypeLengthMismatch(tys(a@), tys(b@))
            },
            DiagnosticKind::PatternIsNotIrrefutable => Report::PatternIsNotIrrefutable,
            DiagnosticKind::InvalidSyntaxInIrrefutablePattern => {
                Report::InvalidSyntaxInIrrefutablePattern
            },
            DiagnosticKind::UnhandledEffectsInMain(e) => Report::UnhandledEffectsInMain(e@),
            DiagnosticKind::FunctionParameterCountMismatch(f, n, m) => {
                Report::FunctionParameterCountMismatch(f@, *n, *m)
            },
            DiagnosticKind::FunctionTypeMismatch(f, g) => Report::FunctionTypeMismatch(f@, g@),
            DiagnosticKind::MutRefToImmutableVariable(name) => {
                Report::MutRefToImmutableVariable(name@)
            },
            DiagnosticKind::MutRefToTemporary => Report::MutRefToTemporary,
        }
    }
}

impl View for Diagnostic {
    type V = Issue;

    open spec fn view(&self) -> Issue {
        Issue {
            location: self.location,
            report: self.kind@,
            bindings: bindings_of(self.bindings@),
        }
    }
}

/// All that inference reads and fills.
#[derive(Debug)]
pub struct ModuleCache {
    /// What each type variable stands for.
    pub type_bindings: Vec<TypeBinding>,
    pub type_infos: Vec<TypeInfo>,
    pub definition_infos: Vec<DefinitionInfo>,
    pub trait_infos: Vec<TraitInfo>,
    pub impl_infos: Vec<ImplInfo>,
    pub effect_infos: Vec<EffectInfo>,
    /// The level of the definition whose right-hand side is being inferred.
    pub current_level: LetBindingLevel,
    pub current_trait_constraint_id: usize,
    /// The definitions being inferred, innermost last.
    pub call_stack: Vec<DefinitionInfoId>,
    pub diagnostics: Vec<Diagnostic>,
}

/// The model of a `ModuleCache`.
#[verifier::ext_equal]
pub struct Cache {
    pub type_bindings: Seq<Binding>,
    pub type_infos: Seq<Info>,
    pub definition_infos: Seq<Def>,
    pub trait_infos: Seq<TraitDecl>,
    /// The constraints in the `given` clause of each impl.
    pub given: Seq<Seq<Signature>>,
    /// The variables that each effect is generic over.
    pub effect_args: Seq<Seq<TypeVariableId>>,
    pub current_level: LetBindingLevel,
    pub next_constraint: usize,
    pub call_stack: Seq<DefinitionInfoId>,
    pub diagnostics: Seq<Issue>,
}

/// The models of the bindings of variables.
pub open spec fn bindings_of(v: Seq<TypeBinding>) -> Seq<Binding> {
    Seq::new(v.len(), |i: int| v[i]@)
}

/// The models of what is known of types.
pub open spec fn infos_of(v: Seq<TypeInfo>) -> Seq<Info> {
    Seq::new(v.len(), |i: int| v[i]@)
}

/// The models of what is known of definitions.
pub open spec fn definitions_of(v: Seq<DefinitionInfo>) -> Seq<Def> {
    Seq::new(v.len(), |i: int| v[i]@)
}

/// The models of what is known of traits.
pub open spec fn traits_of(v: Seq<TraitInfo>) -> Seq<TraitDecl> {
    Seq::new(v.len(), |i: int| v[i]@)
}

/// The models of diagnostics.
pub open spec fn diagnostics_of(v: Seq<Diagnostic>) -> Seq<Issue> {
    Seq::new(v.len(), |i: int| v[i]@)
}

impl View for ModuleCache {
    type V = Cache;

    open spec fn view(&self) -> Cache {
        Cache {
            type_bindings: bindings_of(self.type_bindings@),
            type_infos: infos_of(self.type_infos@),
            definition_infos: definitions_of(self.definition_infos@),
            trait_infos: traits_of(self.trait_infos@),
            given: Seq::new(
                self.impl_infos@.len(),
                |i: int| signatures(self.impl_infos@[i].given@),
            ),
            effect_args: Seq::new(
                self.effect_infos@.len(),
                |i: int| self.effect_infos@[i].typeargs@,
            ),
            current_level: self.current_level,
            next_constraint: self.current_trait_constraint_id,
            call_stack: self.call_stack@,
            diagnostics: diagnostics_of(self.diagnostics@),
        }
    }
}

/// What the cache says of a variable, if it has the variable at all.
pub open spec fn lookup(vars: Seq<Binding>, id: TypeVariableId) -> Option<Binding> {
    if id.0 < vars.len() {
        Some(vars[id.0 as int])
    } else {
        None
    }
}

impl Cache {
    /// The cache after a fresh variable was made at the given level. The new variable is the one
    /// whose id is the number of variables there were.
    pub open spec fn fresh(self, level: LetBindingLevel) -> Cache {
        Cache {
            type_bindings: self.type_bindings.push(Binding::Unbound(level, Kind(0))),
            ..self
        }
    }

    /// The id that the next fresh variable gets.
    pub open spec fn next_id(self) -> TypeVariableId {
        TypeVariableId(self.type_bindings.len() as usize)
    }

    /// The cache with the variable bound to the type.
    pub open spec fn bind(self, id: TypeVariableId, t: Ty) -> Cache {
        Cache {
            type_bindings: self.type_bindings.update(id.0 as int, Binding::Bound(t)),
            ..self
        }
    }

    /// What is told of an error that is found now.
    pub open spec fn issue(self, location: Location, report: Report) -> Issue {
        Issue { location, report, bindings: self.type_bindings }
    }

    /// The cache with a further issue.
    pub open spec fn with_issue(self, issue: Issue) -> Cache {
        Cache { diagnostics: self.diagnostics.push(issue), ..self }
    }

    /// The cache with a further report, of an error that is found now.
    pub open spec fn report(self, location: Location, report: Report) -> Cache {
        self.with_issue(self.issue(location, report))
    }

    /// The cache in which something else is known of the definition.
    pub open spec fn with_definition(self, id: DefinitionInfoId, def: Def) -> Cache {
        Cache { definition_infos: self.definition_infos.update(id.0 as int, def), ..self }
    }
}

/// A copy of the bindings.
pub fn clone_bindings(v: &Vec<TypeBinding>) -> (r: Vec<TypeBinding>)
    ensures
        bindings_of(r@) == bindings_of(v@),
{
    let mut r: Vec<TypeBinding> = Vec::new();
    let mut i: usize = 0;
    while i < v.len()
        invariant
            i <= v.len(),
            r.len() == i,
            forall|j: int| 0 <= j < i ==> (#[trigger] r@[j])@ == v@[j]@,
        decreases v.len() - i,
    {
        r.push(v[i].clone());
        i += 1;
    }
    assert(bindings_of(r@) =~= bindings_of(v@));
    r
}

impl ModuleCache {
    /// A cache that knows of nothing yet, at the level of top-level definitions.
    pub fn new() -> (r: ModuleCache)
        ensures
            r@ == (Cache {
                type_bindings: Seq::empty(),
                type_infos: Seq::empty(),
                definition_infos: Seq::empty(),
                trait_infos: Seq::empty(),
                given: Seq::empty(),
                effect_args: Seq::empty(),
                current_level: LetBindingLevel(INITIAL_LEVEL),
                next_constraint: 0,
                call_stack: Seq::empty(),
                diagnostics: Seq::empty(),
            }),
    {
        let r = ModuleCache {
            type_bindings: Vec::new(),
            type_infos: Vec::new(),
            definition_infos: Vec::new(),
            trait_infos: Vec::new(),
            impl_infos: Vec::new(),
            effect_infos: Vec::new(),
            current_level: LetBindingLevel(INITIAL_LEVEL),
            current_trait_constraint_id: 0,
            call_stack: Vec::new(),
            diagnostics: Vec::new(),
        };
        assert(r@.type_bindings =~= Seq::empty());
        assert(r@.type_infos =~= Seq::empty());
        assert(r@.definition_infos =~= Seq::empty());
        assert(r@.trait_infos =~= Seq::empty());
        assert(r@.given =~= Seq::empty());
        assert(r@.effect_args =~= Seq::empty());
        assert(r@.diagnostics =~= Seq::empty());
        r
    }

    /// Makes a fresh type variable at the given level.
    pub fn next_type_variable_id(&mut self, level: LetBindingLevel) -> (r: TypeVariableId)
        ensures
            r == old(self)@.next_id(),
            r.0 == old(self)@.type_bindings.len(),
            final(self)@ == old(self)@.fresh(level),
    {
        let ghost before = self@;
        let id: usize = self.type_bindings.len();
        self.type_bindings.push(TypeBinding::Unbound(level, Kind(0)));
        assert(self@.type_bindings =~= before.fresh(level).type_bindings);
        assert(self@ =~= before.fresh(level));
        TypeVariableId(id)
    }

    /// Makes a fresh type variable at the given level, as a type.
    pub fn next_type_variable(&mut self, level: LetBindingLevel) -> (r: Type)
        ensures
            r@ == Ty::Variable(old(self)@.next_id()),
            old(self)@.next_id().0 == old(self)@.type_bindings.len(),
            final(self)@ == old(self)@.fresh(level),
    {
        Type::TypeVariable(self.next_type_variable_id(level))
    }

    /// Binds a variable for good.
    pub fn bind(&mut self, id: TypeVariableId, binding: Type)
        requires
            id.0 < old(self)@.type_bindings.len(),
        ensures
            final(self)@ == old(self)@.bind(id, binding@),
    {
        let ghost before = self@;
        self.type_bindings.set(id.0, TypeBinding::Bound(binding));
        assert(self@.type_bindings =~= before.bind(id, binding@).type_bindings);
        assert(self@ =~= before.bind(id, binding@));
    }

    /// What to tell of an error that is found now: the types that it holds are shown with the
    /// bindings of this moment.
    pub fn diagnostic(&self, location: Location, kind: DiagnosticKind) -> (r: Diagnostic)
        ensures
            r@ == self@.issue(location, kind@),
    {
        let bindings = clone_bindings(&self.type_bindings);
        Diagnostic { location, kind, bindings }
    }

    /// Reports something of the given place.
    pub fn push_diagnostic(&mut self, location: Location, kind: DiagnosticKind)
        ensures
            final(self)@ == old(self)@.report(location, kind@),
    {
        let diagnostic = self.diagnostic(location, kind);
        self.push_full_diagnostic(diagnostic);
    }

    /// Reports something.
    pub fn push_full_diagnostic(&mut self, diagnostic: Diagnostic)
        ensures
            final(self)@ == old(self)@.with_issue(diagnostic@),
    {
        let ghost before = self@;
        self.diagnostics.push(diagnostic);
        assert(self@.diagnostics =~= before.diagnostics.push(diagnostic@));
        assert(self@ =~= before.with_issue(diagnostic@));
    }

    /// How many reports there are.
    pub fn error_count(&self) -> (r: usize)
        ensures
            r == self@.diagnostics.len(),
    {
        self.diagnostics.len()
    }
}

} // verus!
