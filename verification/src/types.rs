//! The types of the language, and the mathematical model in which contracts speak of them.

use vstd::prelude::*;

verus! {

/// Names a type variable: an index into the type bindings of a `ModuleCache`.
#[derive(Debug, Clone, Copy, PartialEq, Eq, PartialOrd, Ord, Hash, Structural)]
pub struct TypeVariableId(pub usize);

/// Names a user-defined type: an index into the type infos of a `ModuleCache`.
#[derive(Debug, Clone, Copy, PartialEq, Eq, PartialOrd, Ord, Hash, Structural)]
pub struct TypeInfoId(pub usize);

/// Names an effect declaration: an index into the effect infos of a `ModuleCache`.
#[derive(Debug, Clone, Copy, PartialEq, Eq, PartialOrd, Ord, Hash, Structural)]
pub struct EffectInfoId(pub usize);

/// How deeply nested inside `let` bindings a type variable arose. Variables with a level at
/// least as high as the current one are polymorphic.
#[derive(Debug, Clone, Copy, PartialEq, Eq, PartialOrd, Ord, Hash, Structural)]
pub struct LetBindingLevel(pub usize);

/// The number of type arguments that a type variable expects.
#[derive(Debug, Clone, Copy, PartialEq, Eq, Hash, Structural)]
pub struct Kind(pub usize);

/// The width and the signedness of an integer.
#[derive(Debug, Clone, Copy, PartialEq, Eq, Hash, Structural)]
pub enum IntegerKind {
    I8,
    I16,
    I32,
    I64,
    Isz,
    U8,
    U16,
    U32,
    U64,
    Usz,
}

/// The width of a float.
#[derive(Debug, Clone, Copy, PartialEq, Eq, Hash, Structural)]
pub enum FloatKind {
    F32,
    F64,
}

/// A type that is built in, or a constructor of such types.
#[derive(Debug, Clone, Copy, PartialEq, Eq, Hash, Structural)]
pub enum PrimitiveType {
    /// Takes the integer's kind as its argument.
    IntegerType,
    /// Takes the float's kind as its argument.
    FloatType,
    CharType,
    BooleanType,
    UnitType,
    /// Takes the element type as its argument.
    Ptr,
    IntegerTag(IntegerKind),
    FloatTag(FloatKind),
}

/// Marks the sharedness or the mutability of a reference.
#[derive(Debug, Clone, Copy, PartialEq, Eq, Hash, Structural)]
pub enum TypeTag {
    Owned,
    Shared,
    Mutable,
    Immutable,
}

/// The type of a function.
#[derive(Debug)]
pub struct FunctionType {
    pub parameters: Vec<Type>,
    pub return_type: Box<Type>,
    /// The type of the closed-over variables, unit for a function that closes over none.
    pub environment: Box<Type>,
    pub effects: Box<Type>,
    pub has_varargs: bool,
}

/// One field of a row type.
#[derive(Debug)]
pub struct Field {
    pub name: String,
    pub typ: Type,
}

/// One effect together with the arguments it is used at.
#[derive(Debug)]
pub struct Effect {
    pub id: EffectInfoId,
    pub args: Vec<Type>,
}

/// A row of effects. With an extension variable the row is open: the variable stands for the
/// effects that are not known yet.
#[derive(Debug)]
pub struct EffectSet {
    pub effects: Vec<Effect>,
    pub extension: Option<TypeVariableId>,
}

/// A type.
#[derive(Debug)]
pub enum Type {
    Primitive(PrimitiveType),
    Function(FunctionType),
    TypeVariable(TypeVariableId),
    UserDefined(TypeInfoId),
    TypeApplication(Box<Type>, Vec<Type>),
    /// The constructor of a reference type: applied to the type of the element.
    Ref { sharedness: Box<Type>, mutability: Box<Type>, lifetime: Box<Type> },
    /// A row of fields, ordered by name, and the variable that stands for the other fields.
    Struct(Vec<Field>, TypeVariableId),
    Effects(EffectSet),
    Tag(TypeTag),
    /// A type variable the user gave a name to. It is rigid: only another one can bind it.
    NamedGeneric(TypeVariableId, String),
}

/// The model of a `Type`: the same tree, with sequences in place of vectors and strings.
#[verifier::ext_equal]
pub enum Ty {
    Primitive(PrimitiveType),
    Function {
        parameters: Seq<Ty>,
        return_type: Box<Ty>,
        environment: Box<Ty>,
        effects: Box<Ty>,
        has_varargs: bool,
    },
    Variable(TypeVariableId),
    UserDefined(TypeInfoId),
    Application(Box<Ty>, Seq<Ty>),
    Ref { sharedness: Box<Ty>, mutability: Box<Ty>, lifetime: Box<Ty> },
    /// The names of the fields, their types in the same order, and the row variable.
    Struct(Seq<Seq<char>>, Seq<Ty>, TypeVariableId),
    /// A single effect. It stands only inside `Effects`.
    Effect(EffectInfoId, Seq<Ty>),
    Effects(Seq<Ty>, Option<TypeVariableId>),
    Tag(TypeTag),
    NamedGeneric(TypeVariableId, Seq<char>),
}

impl Type {
    /// The model of the type.
    pub open spec fn ty(&self) -> Ty
        decreases self,
    {
        match self {
            Type::Primitive(p) => Ty::Primitive(*p),
            Type::Function(f) => Ty::Function {
                parameters: tys(f.parameters@),
                return_type: Box::new(f.return_type.ty()),
                environment: Box::new(f.environment.ty()),
                effects: Box::new(f.effects.ty()),
                has_varargs: f.has_varargs,
            },
            Type::TypeVariable(id) => Ty::Variable(*id),
            Type::UserDefined(id) => Ty::UserDefined(*id),
            Type::TypeApplication(c, args) => Ty::Application(Box::new(c.ty()), tys(args@)),
            Type::Ref { sharedness, mutability, lifetime } => Ty::Ref {
                sharedness: Box::new(sharedness.ty()),
                mutability: Box::new(mutability.ty()),
                lifetime: Box::new(lifetime.ty()),
            },
            Type::Struct(fields, rest) => Ty::Struct(
                field_names(fields@),
                field_tys(fields@),
                *rest,
            ),
            Type::Effects(e) => Ty::Effects(effect_tys(e.effects@), e.extension),
            Type::Tag(t) => Ty::Tag(*t),
            Type::NamedGeneric(id, name) => Ty::NamedGeneric(*id, name@),
        }
    }
}

impl View for Type {
    type V = Ty;

    open spec fn view(&self) -> Ty {
        self.ty()
    }
}

impl View for FunctionType {
    type V = Ty;

    open spec fn view(&self) -> Ty {
        Ty::Function {
            parameters: tys(self.parameters@),
            return_type: Box::new(self.return_type.ty()),
            environment: Box::new(self.environment.ty()),
            effects: Box::new(self.effects.ty()),
            has_varargs: self.has_varargs,
        }
    }
}

impl View for Effect {
    type V = Ty;

    open spec fn view(&self) -> Ty {
        Ty::Effect(self.id, tys(self.args@))
    }
}

impl View for EffectSet {
    type V = Ty;

    open spec fn view(&self) -> Ty {
        Ty::Effects(effect_tys(self.effects@), self.extension)
    }
}

/// The models of types.
pub open spec fn tys(types: Seq<Type>) -> Seq<Ty>
    decreases types,
{
    Seq::new(
        types.len(),
        |i: int|
            if 0 <= i < types.len() {
                types[i].ty()
            } else {
                arbitrary()
            },
    )
}

/// The names of fields.
pub open spec fn field_names(fields: Seq<Field>) -> Seq<Seq<char>> {
    Seq::new(fields.len(), |i: int| fields[i].name@)
}

/// The models of the types of fields.
pub open spec fn field_tys(fields: Seq<Field>) -> Seq<Ty>
    decreases fields,
{
    Seq::new(
        fields.len(),
        |i: int|
            if 0 <= i < fields.len() {
                fields[i].typ.ty()
            } else {
                arbitrary()
            },
    )
}

/// The models of effects.
pub open spec fn effect_tys(effects: Seq<Effect>) -> Seq<Ty>
    decreases effects,
{
    Seq::new(
        effects.len(),
        |i: int|
            if 0 <= i < effects.len() {
                Ty::Effect(effects[i].id, tys(effects[i].args@))
            } else {
                arbitrary()
            },
    )
}

impl Clone for Type {
    fn clone(&self) -> (r: Self)
        ensures
            r@ == self@,
        decreases self,
    {
        match self {
            Type::Primitive(p) => Type::Primitive(*p),
            Type::Function(f) => Type::Function(f.clone()),
            Type::TypeVariable(id) => Type::TypeVariable(*id),
            Type::UserDefined(id) => Type::UserDefined(*id),
            Type::TypeApplication(c, args) => {
                let c2: Type = (&**c).clone();
                Type::TypeApplication(Box::new(c2), clone_types(args))
            },
            Type::Ref { sharedness, mutability, lifetime } => {
                let s: Type = (&**sharedness).clone();
                let m: Type = (&**mutability).clone();
                let l: Type = (&**lifetime).clone();
                Type::Ref {
                    sharedness: Box::new(s),
                    mutability: Box::new(m),
                    lifetime: Box::new(l),
                }
            },
            Type::Struct(fields, rest) => Type::Struct(clone_fields(fields), *rest),
            Type::Effects(e) => Type::Effects(e.clone()),
            Type::Tag(t) => Type::Tag(*t),
            Type::NamedGeneric(id, name) => Type::NamedGeneric(*id, name.clone()),
        }
    }
}

impl Clone for FunctionType {
    fn clone(&self) -> (r: Self)
        ensures
            r@ == self@,
        decreases self,
    {
        let return_type: Type = (&*self.return_type).clone();
        let environment: Type = (&*self.environment).clone();
        let effects: Type = (&*self.effects).clone();
        FunctionType {
            parameters: clone_types(&self.parameters),
            return_type: Box::new(return_type),
            environment: Box::new(environment),
            effects: Box::new(effects),
            has_varargs: self.has_varargs,
        }
    }
}

impl Clone for Effect {
    fn clone(&self) -> (r: Self)
        ensures
            r@ == self@,
        decreases self,
    {
        Effect { id: self.id, args: clone_types(&self.args) }
    }
}

impl Clone for EffectSet {
    fn clone(&self) -> (r: Self)
        ensures
            r@ == self@,
        decreases self,
    {
        EffectSet { effects: clone_effects(&self.effects), extension: self.extension }
    }
}

/// A copy of the types.
pub fn clone_types(types: &Vec<Type>) -> (r: Vec<Type>)
    ensures
        tys(r@) == tys(types@),
    decreases types,
{
    let mut r: Vec<Type> = Vec::new();
    let mut i: usize = 0;
    while i < types.len()
        invariant
            i <= types.len(),
            r.len() == i,
            forall|j: int| 0 <= j < i ==> (#[trigger] r@[j])@ == types@[j]@,
        decreases types.len() - i,
    {
        r.push(types[i].clone());
        i += 1;
    }
    assert(tys(r@) =~= tys(types@));
    r
}

/// A copy of the fields.
pub fn clone_fields(fields: &Vec<Field>) -> (r: Vec<Field>)
    ensures
        field_names(r@) == field_names(fields@),
        field_tys(r@) == field_tys(fields@),
    decreases fields,
{
    let mut r: Vec<Field> = Vec::new();
    let mut i: usize = 0;
    while i < fields.len()
        invariant
            i <= fields.len(),
            r.len() == i,
            forall|j: int|
                0 <= j < i ==> (#[trigger] r@[j]).name@ == fields@[j].name@ && r@[j].typ@
                    == fields@[j].typ@,
        decreases fields.len() - i,
    {
        r.push(Field { name: fields[i].name.clone(), typ: fields[i].typ.clone() });
        i += 1;
    }
    assert(field_names(r@) =~= field_names(fields@));
    assert(field_tys(r@) =~= field_tys(fields@));
    r
}

/// A copy of the effects.
pub fn clone_effects(effects: &Vec<Effect>) -> (r: Vec<Effect>)
    ensures
        effect_tys(r@) == effect_tys(effects@),
    decreases effects,
{
    let mut r: Vec<Effect> = Vec::new();
    let mut i: usize = 0;
    while i < effects.len()
        invariant
            i <= effects.len(),
            r.len() == i,
            forall|j: int| 0 <= j < i ==> (#[trigger] r@[j])@ == effects@[j]@,
        decreases effects.len() - i,
    {
        r.push(effects[i].clone());
        i += 1;
    }
    assert(effect_tys(r@) =~= effect_tys(effects@));
    r
}

/// Whether the types are the same.
pub fn same_type(a: &Type, b: &Type) -> (r: bool)
    ensures
        r == (a@ == b@),
    decreases a,
{
    match (a, b) {
        (Type::Primitive(p), Type::Primitive(q)) => *p == *q,
        (Type::Function(f), Type::Function(g)) => same_function(f, g),
        (Type::TypeVariable(x), Type::TypeVariable(y)) => *x == *y,
        (Type::UserDefined(x), Type::UserDefined(y)) => *x == *y,
        (Type::TypeApplication(c, xs), Type::TypeApplication(d, ys)) => {
            same_type(c, d) && same_types(xs, ys)
        },
        (
            Type::Ref { sharedness, mutability, lifetime },
            Type::Ref { sharedness: s2, mutability: m2, lifetime: l2 },
        ) => { same_type(sharedness, s2) && same_type(mutability, m2) && same_type(lifetime, l2) },
        (Type::Struct(xs, x), Type::Struct(ys, y)) => *x == *y && same_fields(xs, ys),
        (Type::Effects(e), Type::Effects(f)) => same_effect_set(e, f),
        (Type::Tag(s), Type::Tag(t)) => *s == *t,
        (Type::NamedGeneric(x, n), Type::NamedGeneric(y, m)) => *x == *y && *n == *m,
        _ => false,
    }
}

/// Whether the function types are the same.
pub fn same_function(a: &FunctionType, b: &FunctionType) -> (r: bool)
    ensures
        r == (a@ == b@),
    decreases a,
{
    same_types(&a.parameters, &b.parameters) && same_type(&a.return_type, &b.return_type)
        && same_type(&a.environment, &b.environment) && same_type(&a.effects, &b.effects)
        && a.has_varargs == b.has_varargs
}

/// Whether the effects are the same.
pub fn same_effect(a: &Effect, b: &Effect) -> (r: bool)
    ensures
        r == (a@ == b@),
    decreases a,
{
    a.id == b.id && same_types(&a.args, &b.args)
}

/// Whether the rows of effects are the same.
pub fn same_effect_set(a: &EffectSet, b: &EffectSet) -> (r: bool)
    ensures
        r == (a@ == b@),
    decreases a,
{
    same_effects(&a.effects, &b.effects) && same_extension(a.extension, b.extension)
}

fn same_extension(a: Option<TypeVariableId>, b: Option<TypeVariableId>) -> (r: bool)
    ensures
        r == (a == b),
{
    match (a, b) {
        (None, None) => true,
        (Some(x), Some(y)) => x == y,
        _ => false,
    }
}

/// Whether the lists of types are the same.
pub fn same_types(xs: &Vec<Type>, ys: &Vec<Type>) -> (r: bool)
    ensures
        r == (tys(xs@) == tys(ys@)),
    decreases xs,
{
    if xs.len() != ys.len() {
        assert(tys(xs@).len() != tys(ys@).len());
        return false;
    }
    let mut i: usize = 0;
    while i < xs.len()
        invariant
            i <= xs.len(),
            xs.len() == ys.len(),
            forall|j: int| 0 <= j < i ==> (#[trigger] xs@[j])@ == ys@[j]@,
        decreases xs.len() - i,
    {
        if !same_type(&xs[i], &ys[i]) {
            assert(tys(xs@)[i as int] != tys(ys@)[i as int]);
            return false;
        }
        i += 1;
    }
    assert(tys(xs@) =~= tys(ys@));
    true
}

/// Whether the lists of fields are the same.
pub fn same_fields(xs: &Vec<Field>, ys: &Vec<Field>) -> (r: bool)
    ensures
        r == (field_names(xs@) == field_names(ys@) && field_tys(xs@) == field_tys(ys@)),
    decreases xs,
{
    if xs.len() != ys.len() {
        assert(field_tys(xs@).len() != field_tys(ys@).len());
        return false;
    }
    let mut i: usize = 0;
    while i < xs.len()
        invariant
            i <= xs.len(),
            xs.len() == ys.len(),
            forall|j: int|
                0 <= j < i ==> (#[trigger] xs@[j]).name@ == ys@[j].name@ && xs@[j].typ@
                    == ys@[j].typ@,
        decreases xs.len() - i,
    {
        if xs[i].name != ys[i].name {
            assert(field_names(xs@)[i as int] != field_names(ys@)[i as int]);
            return false;
        }
        if !same_type(&xs[i].typ, &ys[i].typ) {
            assert(field_tys(xs@)[i as int] != field_tys(ys@)[i as int]);
            return false;
        }
        i += 1;
    }
    assert(field_names(xs@) =~= field_names(ys@));
    assert(field_tys(xs@) =~= field_tys(ys@));
    true
}

/// Whether the lists of effects are the same.
pub fn same_effects(xs: &Vec<Effect>, ys: &Vec<Effect>) -> (r: bool)
    ensures
        r == (effect_tys(xs@) == effect_tys(ys@)),
    decreases xs,
{
    if xs.len() != ys.len() {
        assert(effect_tys(xs@).len() != effect_tys(ys@).len());
        return false;
    }
    let mut i: usize = 0;
    while i < xs.len()
        invariant
            i <= xs.len(),
            xs.len() == ys.len(),
            forall|j: int| 0 <= j < i ==> (#[trigger] xs@[j])@ == ys@[j]@,
        decreases xs.len() - i,
    {
        if !same_effect(&xs[i], &ys[i]) {
            assert(effect_tys(xs@)[i as int] != effect_tys(ys@)[i as int]);
            return false;
        }
        i += 1;
    }
    assert(effect_tys(xs@) =~= effect_tys(ys@));
    true
}

impl PartialEq for Type {
    fn eq(&self, other: &Type) -> (r: bool) {
        same_type(self, other)
    }
}

impl vstd::std_specs::cmp::PartialEqSpecImpl for Type {
    open spec fn obeys_eq_spec() -> bool {
        true
    }

    open spec fn eq_spec(&self, other: &Type) -> bool {
        self@ == other@
    }
}

impl PartialEq for FunctionType {
    fn eq(&self, other: &FunctionType) -> (r: bool) {
        same_function(self, other)
    }
}

impl vstd::std_specs::cmp::PartialEqSpecImpl for FunctionType {
    open spec fn obeys_eq_spec() -> bool {
        true
    }

    open spec fn eq_spec(&self, other: &FunctionType) -> bool {
        self@ == other@
    }
}

impl PartialEq for Effect {
    fn eq(&self, other: &Effect) -> (r: bool) {
        same_effect(self, other)
    }
}

impl vstd::std_specs::cmp::PartialEqSpecImpl for Effect {
    open spec fn obeys_eq_spec() -> bool {
        true
    }

    open spec fn eq_spec(&self, other: &Effect) -> bool {
        self@ == other@
    }
}

impl PartialEq for EffectSet {
    fn eq(&self, other: &EffectSet) -> (r: bool) {
        same_effect_set(self, other)
    }
}

impl vstd::std_specs::cmp::PartialEqSpecImpl for EffectSet {
    open spec fn obeys_eq_spec() -> bool {
        true
    }

    open spec fn eq_spec(&self, other: &EffectSet) -> bool {
        self@ == other@
    }
}

} // verus!
