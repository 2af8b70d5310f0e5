//! Irrefutable patterns: what they are, binding them to types, and finding their variables.

use crate::bindings::Solution;
use crate::cache::{
    required_traits, Cache, Def, DefinitionInfoId, DiagnosticKind, GeneralizedType, ImplScopeId,
    Location, ModuleCache, Reason, Report, Required, RequiredTrait, Scheme, TypeErrorKind,
};
use crate::resolve::MAX_DEPTH;
use crate::results::{pair_ty, unit_ty};
use crate::solve::{after_unify, unify_or_report};
use crate::subst::next_type_variable;
use crate::types::{clone_types, tys, FunctionType, Ty, Type};
use crate::typevars::{generalization, generalize};
use crate::unify::State;
use crate::unify_laws::law_unify_keeps;
use vstd::prelude::*;

verus! {

/// A variable that a pattern declares.
#[derive(Debug)]
pub struct PatternVariable {
    pub name: String,
    pub definition: Option<DefinitionInfoId>,
    pub impl_scope: Option<ImplScopeId>,
    pub location: Location,
    pub typ: Option<Type>,
}

/// A literal that stands in a pattern.
#[derive(Debug)]
pub struct PatternLiteral {
    pub is_unit: bool,
    pub location: Location,
    pub typ: Option<Type>,
}

/// A pattern with the type that was declared for it.
#[derive(Debug)]
pub struct PatternAnnotation {
    pub lhs: Box<Pattern>,
    pub typ: Option<Type>,
    pub location: Location,
}

/// A constructor applied to patterns.
#[derive(Debug)]
pub struct PatternCall {
    pub is_pair_constructor: bool,
    pub args: Vec<Pattern>,
    pub function_type: Option<Type>,
    pub typ: Option<Type>,
    pub location: Location,
}

/// An expression that is no pattern.
#[derive(Debug)]
pub struct NoPattern {
    pub location: Location,
    pub typ: Option<Type>,
}

/// A pattern, or an expression that stands where a pattern is expected.
#[derive(Debug)]
pub enum Pattern {
    Literal(PatternLiteral),
    Variable(PatternVariable),
    TypeAnnotation(PatternAnnotation),
    FunctionCall(PatternCall),
    Other(NoPattern),
}

/// The model of a `PatternVariable`.
#[verifier::ext_equal]
pub struct PatVar {
    pub name: Seq<char>,
    pub definition: Option<DefinitionInfoId>,
    pub impl_scope: Option<ImplScopeId>,
    pub location: Location,
    pub typ: Option<Ty>,
}

/// The model of a `Pattern`.
#[verifier::ext_equal]
pub enum Pat {
    Literal(bool, Location, Option<Ty>),
    Variable(PatVar),
    Annotation(Box<Pat>, Option<Ty>, Location),
    Call {
        is_pair: bool,
        args: Seq<Pat>,
        function_type: Option<Ty>,
        typ: Option<Ty>,
        location: Location,
    },
    Other(Location, Option<Ty>),
}

/// The model of an optional type.
pub open spec fn opt_ty(t: Option<Type>) -> Option<Ty> {
    match t {
        Some(t) => Some(t@),
        None => None,
    }
}

impl View for PatternVariable {
    type V = PatVar;

    open spec fn view(&self) -> PatVar {
        PatVar {
            name: self.name@,
            definition: self.definition,
            impl_scope: self.impl_scope,
            location: self.location,
            typ: opt_ty(self.typ),
        }
    }
}

impl Pattern {
    /// The model of the pattern.
    pub open spec fn pat(&self) -> Pat
        decreases self,
    {
        match self {
            Pattern::Literal(l) => Pat::Literal(l.is_unit, l.location, opt_ty(l.typ)),
            Pattern::Variable(v) => Pat::Variable(v@),
            Pattern::TypeAnnotation(a) => Pat::Annotation(
                Box::new(a.lhs.pat()),
                opt_ty(a.typ),
                a.location,
            ),
            Pattern::FunctionCall(call) => Pat::Call {
                is_pair: call.is_pair_constructor,
                args: pats(call.args@),
                function_type: opt_ty(call.function_type),
                typ: opt_ty(call.typ),
                location: call.location,
            },
            Pattern::Other(o) => Pat::Other(o.location, opt_ty(o.typ)),
        }
    }
}

impl View for Pattern {
    type V = Pat;

    open spec fn view(&self) -> Pat {
        self.pat()
    }
}

/// The models of patterns.
pub open spec fn pats(patterns: Seq<Pattern>) -> Seq<Pat>
    decreases patterns,
{
    Seq::new(
        patterns.len(),
        |i: int|
            if 0 <= i < patterns.len() {
                patterns[i].pat()
            } else {
                arbitrary()
            },
    )
}

impl Pat {
    /// The type that the pattern carries.
    pub open spec fn typ(self) -> Option<Ty> {
        match self {
            Pat::Literal(_, _, typ) => typ,
            Pat::Variable(v) => v.typ,
            Pat::Annotation(_, typ, _) => typ,
            Pat::Call { typ, .. } => typ,
            Pat::Other(_, typ) => typ,
        }
    }

    /// The pattern with another type.
    pub open spec fn with_type(self, t: Ty) -> Pat {
        match self {
            Pat::Literal(is_unit, location, _) => Pat::Literal(is_unit, location, Some(t)),
            Pat::Variable(v) => Pat::Variable(PatVar { typ: Some(t), ..v }),
            Pat::Annotation(lhs, _, location) => Pat::Annotation(lhs, Some(t), location),
            Pat::Call { is_pair, args, function_type, location, .. } => {
                Pat::Call { is_pair, args, function_type, typ: Some(t), location }
            },
            Pat::Other(location, _) => Pat::Other(location, Some(t)),
        }
    }

    /// The place of the pattern.
    pub open spec fn location(self) -> Location {
        match self {
            Pat::Literal(_, location, _) => location,
            Pat::Variable(v) => v.location,
            Pat::Annotation(_, _, location) => location,
            Pat::Call { location, .. } => location,
            Pat::Other(location, _) => location,
        }
    }
}

impl Pattern {
    /// The type that the pattern carries.
    pub fn get_type(&self) -> (r: Option<&Type>)
        ensures
            match self@.typ() {
                Some(t) => r is Some && r->0@ == t,
                None => r is None,
            },
    {
        match self {
            Pattern::Literal(l) => l.typ.as_ref(),
            Pattern::Variable(v) => v.typ.as_ref(),
            Pattern::TypeAnnotation(a) => a.typ.as_ref(),
            Pattern::FunctionCall(call) => call.typ.as_ref(),
            Pattern::Other(o) => o.typ.as_ref(),
        }
    }

    /// Notes the type of the pattern.
    pub fn set_type(&mut self, t: Type)
        ensures
            final(self)@ == old(self)@.with_type(t@),
    {
        match self {
            Pattern::Literal(l) => {
                l.typ = Some(t);
            },
            Pattern::Variable(v) => {
                v.typ = Some(t);
            },
            Pattern::TypeAnnotation(a) => {
                a.typ = Some(t);
            },
            Pattern::FunctionCall(call) => {
                call.typ = Some(t);
            },
            Pattern::Other(o) => {
                o.typ = Some(t);
            },
        }
    }

    /// The place of the pattern.
    pub fn locate(&self) -> (r: Location)
        ensures
            r == self@.location(),
    {
        match self {
            Pattern::Literal(l) => l.location,
            Pattern::Variable(v) => v.location,
            Pattern::TypeAnnotation(a) => a.location,
            Pattern::FunctionCall(call) => call.location,
            Pattern::Other(o) => o.location,
        }
    }
}

/// `n` fresh variables, as types, and the cache that has them.
pub open spec fn fresh_types(n: nat, c: Cache) -> (Seq<Ty>, Cache)
    decreases n,
{
    if n == 0 {
        (Seq::empty(), c)
    } else {
        let (ts, c1) = fresh_types((n - 1) as nat, c);
        (ts.push(Ty::Variable(c1.next_id())), c1.fresh(c.current_level))
    }
}

/// Makes fresh variables.
pub fn next_type_variables(n: usize, cache: &mut ModuleCache) -> (r: Vec<Type>)
    ensures
        fresh_types(n as nat, old(cache)@) == (tys(r@), final(cache)@),
        r.len() == n,
        final(cache)@.current_level == old(cache)@.current_level,
{
    let mut r: Vec<Type> = Vec::new();
    let mut i: usize = 0;
    assert(tys(r@) =~= Seq::empty());
    while i < n
        invariant
            i <= n,
            r.len() == i,
            fresh_types(i as nat, old(cache)@) == (tys(r@), cache@),
            cache@.current_level == old(cache)@.current_level,
        decreases n - i,
    {
        let ghost before = tys(r@);
        let typ = next_type_variable(cache);
        let ghost t = typ@;
        r.push(typ);
        assert(tys(r@) =~= before.push(t));
        i += 1;
    }
    r
}

/// What binding a variable to a type makes of the variable and the cache. A type that its
/// definition had already is unified with the new one first; a polytype stays one.
pub open spec fn bound_variable(
    v: PatVar,
    t: Ty,
    required: Seq<Required>,
    generalize: bool,
    c: Cache,
) -> Option<(PatVar, Cache)> {
    match v.definition {
        None => None,
        Some(id) => if id.0 >= c.definition_infos.len() {
            None
        } else {
            let (unified, general) = match c.definition_infos[id.0 as int].typ {
                Some(scheme) => (
                    after_unify(
                        scheme.body(),
                        t,
                        v.location,
                        Reason::VariableDoesNotMatchDeclaredType,
                        c,
                    ),
                    generalize || scheme is Poly,
                ),
                None => (Some(c), generalize),
            };
            match unified {
                None => None,
                Some(c1) => {
                    let scheme = if general {
                        generalization(t, c1)
                    } else {
                        Some(Scheme::Mono(t))
                    };
                    match scheme {
                        None => None,
                        Some(scheme) => {
                            let info = c1.definition_infos[id.0 as int];
                            Some(
                                (
                                    PatVar { typ: Some(scheme.body()), ..v },
                                    c1.with_definition(
                                        id,
                                        Def {
                                            typ: Some(scheme),
                                            required_traits: info.required_traits + required,
                                            ..info
                                        },
                                    ),
                                ),
                            )
                        },
                    }
                },
            }
        },
    }
}

/// The type of the constructor of a pair of the given elements, with effects that are not known.
pub open spec fn pair_constructor(args: Seq<Ty>, effects: Ty) -> Ty {
    Ty::Function {
        parameters: args,
        return_type: Box::new(pair_ty(args)),
        environment: Box::new(unit_ty()),
        effects: Box::new(effects),
        has_varargs: false,
    }
}

/// What binding a pattern to a type makes of the pattern and the cache. `None` where unification
/// is not defined, or the cache lacks the definition of a variable.
pub open spec fn bound_pattern(
    p: Pat,
    t: Ty,
    required: Seq<Required>,
    generalize: bool,
    c: Cache,
) -> Option<(Pat, Cache)>
    decreases p,
{
    match p {
        Pat::Literal(true, location, _) => match after_unify(
            unit_ty(),
            t,
            location,
            Reason::ExpectedUnitTypeFromPattern,
            c,
        ) {
            Some(c1) => Some((p.with_type(unit_ty()), c1)),
            None => None,
        },
        Pat::Literal(false, location, _) => Some(
            (p, c.report(location, Report::PatternIsNotIrrefutable)),
        ),
        Pat::Variable(v) => match bound_variable(v, t, required, generalize, c) {
            Some((v1, c1)) => Some((Pat::Variable(v1), c1)),
            None => None,
        },
        Pat::Annotation(lhs, typ, location) => match typ {
            None => None,
            Some(declared) => match after_unify(
                t,
                declared,
                location,
                Reason::PatternTypeDoesNotMatchAnnotatedType,
                c,
            ) {
                None => None,
                Some(c1) => match bound_pattern(*lhs, t, required, generalize, c1) {
                    Some((lhs1, c2)) => Some((Pat::Annotation(Box::new(lhs1), typ, location), c2)),
                    None => None,
                },
            },
        },
        Pat::Call { is_pair: true, args, location, .. } => {
            let (elements, c1) = fresh_types(args.len(), c);
            match after_unify(
                pair_ty(elements),
                t,
                location,
                Reason::ExpectedPairTypeFromPattern,
                c1,
            ) {
                None => None,
                Some(c2) => match bound_patterns(
                    args,
                    elements,
                    required,
                    generalize,
                    c2.fresh(c2.current_level),
                ) {
                    None => None,
                    Some((args1, c3)) => Some(
                        (
                            Pat::Call {
                                is_pair: true,
                                args: args1,
                                function_type: Some(
                                    pair_constructor(elements, Ty::Variable(c2.next_id())),
                                ),
                                typ: Some(pair_ty(elements)),
                                location,
                            },
                            c3,
                        ),
                    ),
                },
            }
        },
        _ => Some((p, c.report(p.location(), Report::InvalidSyntaxInIrrefutablePattern))),
    }
}

/// What binding each pattern to the type in its place makes of them and the cache.
pub open spec fn bound_patterns(
    ps: Seq<Pat>,
    ts: Seq<Ty>,
    required: Seq<Required>,
    generalize: bool,
    c: Cache,
) -> Option<(Seq<Pat>, Cache)>
    decreases ps,
{
    if ps.len() == 0 {
        Some((ps, c))
    } else {
        let front = ps.subrange(0, ps.len() - 1);
        match bound_patterns(front, ts, required, generalize, c) {
            None => None,
            Some((front1, c1)) => match bound_pattern(
                ps[ps.len() - 1],
                ts[ps.len() - 1],
                required,
                generalize,
                c1,
            ) {
                None => None,
                Some((last, c2)) => Some((front1.push(last), c2)),
            },
        }
    }
}

/// Adds clones of the required traits.
pub fn extend_required(traits: &mut Vec<RequiredTrait>, more: &[RequiredTrait])
    ensures
        required_traits(final(traits)@) == required_traits(old(traits)@) + required_traits(more@),
{
    let ghost before = required_traits(traits@);
    let ghost added = required_traits(more@);
    let mut i: usize = 0;
    assert(before + added.take(0) =~= before);
    while i < more.len()
        invariant
            i <= more.len(),
            added == required_traits(more@),
            required_traits(traits@) == before + added.take(i as int),
        decreases more.len() - i,
    {
        let required = more[i].clone();
        let ghost now = required_traits(traits@);
        let ghost r = required@;
        traits.push(required);
        proof {
            assert(required_traits(traits@) =~= now.push(r));
            assert(added.take(i + 1) =~= added.take(i as int).push(added[i as int]));
            assert(before + added.take(i + 1) =~= (before + added.take(i as int)).push(r));
        }
        i += 1;
    }
    assert(added.take(i as int) =~= added);
}

impl PatternVariable {
    /// Binds the variable, and its definition, to the type.
    fn bind_to(
        &mut self,
        typ: &Type,
        required: &[RequiredTrait],
        should_generalize: bool,
        cache: &mut ModuleCache,
    ) -> (r: Option<()>)
        ensures
            match bound_variable(
                old(self)@,
                typ@,
                required_traits(required@),
                should_generalize,
                old(cache)@,
            ) {
                Some((v, c)) => r is Some && final(self)@ == v && final(cache)@ == c,
                None => r is None,
            },
    {
        let id = self.definition?;
        if id.0 >= cache.definition_infos.len() {
            return None;
        }
        assert(cache@.definition_infos[id.0 as int] == cache.definition_infos@[id.0 as int]@);
        let mut general = should_generalize;
        // The type may be there already, from a trait impl that the definition belongs to.
        let existing = match &cache.definition_infos[id.0].typ {
            Some(existing_type) => Some(existing_type.clone()),
            None => None,
        };
        if let Some(existing_type) = existing {
            proof {
                lemma_after_unify_keeps(
                    existing_type@.body(),
                    typ@,
                    self.location,
                    Reason::VariableDoesNotMatchDeclaredType,
                    cache@,
                );
            }
            // A polytype does not become a monotype again.
            if let GeneralizedType::PolyType(_, _) = &existing_type {
                general = true;
            }
            unify_or_report(
                existing_type.remove_forall(),
                typ,
                self.location,
                cache,
                TypeErrorKind::VariableDoesNotMatchDeclaredType,
            )?;
        }
        let ghost c1 = cache@;
        let scheme = if general {
            generalize(typ, cache)?
        } else {
            GeneralizedType::MonoType(typ.clone())
        };
        assert(c1.definition_infos[id.0 as int] == cache.definition_infos@[id.0 as int]@);
        extend_required(&mut cache.definition_infos[id.0].required_traits, required);
        self.typ = Some(scheme.remove_forall().clone());
        let ghost s = scheme@;
        cache.definition_infos[id.0].typ = Some(scheme);
        proof {
            let info = c1.definition_infos[id.0 as int];
            let def = Def {
                typ: Some(s),
                required_traits: info.required_traits + required_traits(required@),
                ..info
            };
            assert(cache@.definition_infos =~= c1.with_definition(id, def).definition_infos);
        }
        Some(())
    }
}

/// Whether a result, the pattern and the cache left behind are those that binding comes to.
pub open spec fn is_bound(r: Option<()>, p: Pat, c: Cache, m: Option<(Pat, Cache)>) -> bool {
    match m {
        Some((p1, c1)) => r is Some && p == p1 && c == c1,
        None => r is None,
    }
}

/// Binds the type to an irrefutable pattern, and reports a pattern that is none. If
/// `should_generalize` is set, the type given to each variable is generalized. The required traits
/// are added to those of the definition of each variable. `None` where the result is not defined.
pub fn bind_irrefutable_pattern(
    pattern: &mut Pattern,
    typ: &Type,
    required: &[RequiredTrait],
    should_generalize: bool,
    cache: &mut ModuleCache,
) -> (r: Option<()>)
    ensures
        is_bound(
            r,
            final(pattern)@,
            final(cache)@,
            bound_pattern(
                old(pattern)@,
                typ@,
                required_traits(required@),
                should_generalize,
                old(cache)@,
            ),
        ),
    decreases *old(pattern),
{
    match pattern {
        Pattern::Literal(literal) => {
            if literal.is_unit {
                literal.typ = Some(Type::unit());
                unify_or_report(
                    &Type::unit(),
                    typ,
                    literal.location,
                    cache,
                    TypeErrorKind::ExpectedUnitTypeFromPattern,
                )
            } else {
                cache.push_diagnostic(literal.location, DiagnosticKind::PatternIsNotIrrefutable);
                Some(())
            }
        },
        Pattern::Variable(variable) => variable.bind_to(typ, required, should_generalize, cache),
        Pattern::TypeAnnotation(annotation) => {
            let declared = annotation.typ.as_ref()?;
            unify_or_report(
                typ,
                declared,
                annotation.location,
                cache,
                TypeErrorKind::PatternTypeDoesNotMatchAnnotatedType,
            )?;
            bind_irrefutable_pattern(
                &mut annotation.lhs,
                typ,
                required,
                should_generalize,
                cache,
            )
        },
        Pattern::FunctionCall(call) => {
            if call.is_pair_constructor {
                assert(pats(call.args@).len() == call.args.len());
                let elements = next_type_variables(call.args.len(), cache);
                let pair_type = Type::pair(clone_types(&elements));
                unify_or_report(
                    &pair_type,
                    typ,
                    call.location,
                    cache,
                    TypeErrorKind::ExpectedPairTypeFromPattern,
                )?;
                call.function_type = Some(
                    pair_constructor_type(&elements, &pair_type, next_type_variable(cache)),
                );
                call.typ = Some(pair_type);
                bind_irrefutable_patterns(
                    &mut call.args,
                    &elements,
                    required,
                    should_generalize,
                    cache,
                )
            } else {
                cache.push_diagnostic(
                    call.location,
                    DiagnosticKind::InvalidSyntaxInIrrefutablePattern,
                );
                Some(())
            }
        },
        Pattern::Other(other) => {
            cache.push_diagnostic(
                other.location,
                DiagnosticKind::InvalidSyntaxInIrrefutablePattern,
            );
            Some(())
        },
    }
}

/// The type of the constructor of a pair.
fn pair_constructor_type(elements: &Vec<Type>, pair_type: &Type, effects: Type) -> (r: Type)
    requires
        pair_type@ == pair_ty(tys(elements@)),
    ensures
        r@ == pair_constructor(tys(elements@), effects@),
{
    let return_type = pair_type.clone();
    let environment = Type::unit();
    Type::Function(
        FunctionType {
            parameters: clone_types(elements),
            return_type: Box::new(return_type),
            environment: Box::new(environment),
            effects: Box::new(effects),
            has_varargs: false,
        },
    )
}

/// Whether a result, the patterns and the cache left behind are those that binding comes to.
pub open spec fn are_bound(
    r: Option<()>,
    ps: Seq<Pat>,
    c: Cache,
    m: Option<(Seq<Pat>, Cache)>,
) -> bool {
    match m {
        Some((ps1, c1)) => r is Some && ps == ps1 && c == c1,
        None => r is None,
    }
}

/// Binds each pattern to the type in its place.
pub fn bind_irrefutable_patterns(
    patterns: &mut Vec<Pattern>,
    types: &Vec<Type>,
    required: &[RequiredTrait],
    should_generalize: bool,
    cache: &mut ModuleCache,
) -> (r: Option<()>)
    requires
        old(patterns).len() == types.len(),
    ensures
        are_bound(
            r,
            pats(final(patterns)@),
            final(cache)@,
            bound_patterns(
                pats(old(patterns)@),
                tys(types@),
                required_traits(required@),
                should_generalize,
                old(cache)@,
            ),
        ),
    decreases *old(patterns),
{
    let ghost ps = pats(patterns@);
    let ghost ts = tys(types@);
    let ghost rs = required_traits(required@);
    let ghost c = cache@;
    let mut i: usize = 0;
    assert(ps.take(0) =~= Seq::empty());
    assert(pats(patterns@).take(0) =~= Seq::empty());
    while i < patterns.len()
        invariant
            i <= patterns.len(),
            patterns.len() == old(patterns).len(),
            types.len() == patterns.len(),
            ps == pats(old(patterns)@),
            ts == tys(types@),
            rs == required_traits(required@),
            c == old(cache)@,
            forall|j: int| i <= j < patterns.len() ==> patterns@[j] == old(patterns)@[j],
            bound_patterns(ps.take(i as int), ts, rs, should_generalize, c) == Some(
                (pats(patterns@).take(i as int), cache@),
            ),
        decreases patterns.len() - i,
    {
        let ghost before = patterns@;
        proof {
            assert(patterns@[i as int] == old(patterns)@[i as int]);
            assert(ps.take(i + 1).subrange(0, i as int) =~= ps.take(i as int));
            assert(ps.take(i + 1)[i as int] == old(patterns)@[i as int]@);
            assert(ts[i as int] == types@[i as int]@);
        }
        let done = bind_irrefutable_pattern(
            &mut patterns[i],
            &types[i],
            required,
            should_generalize,
            cache,
        );
        if done.is_none() {
            proof {
                lemma_bound_patterns_none(ps, (i + 1) as int, ts, rs, should_generalize, c);
            }
            return None;
        }
        proof {
            assert(pats(patterns@).take(i + 1) =~= pats(before).take(i as int).push(
                patterns@[i as int]@,
            ));
        }
        i += 1;
    }
    proof {
        assert(ps.take(i as int) =~= ps);
        assert(pats(patterns@).take(i as int) =~= pats(patterns@));
    }
    Some(())
}

proof fn lemma_bound_patterns_none(
    ps: Seq<Pat>,
    n: int,
    ts: Seq<Ty>,
    required: Seq<Required>,
    generalize: bool,
    c: Cache,
)
    requires
        0 <= n <= ps.len(),
        bound_patterns(ps.take(n), ts, required, generalize, c) is None,
    ensures
        bound_patterns(ps, ts, required, generalize, c) is None,
    decreases ps.len(),
{
    if n < ps.len() {
        let front = ps.subrange(0, ps.len() - 1);
        assert(front.take(n) =~= ps.take(n));
        lemma_bound_patterns_none(front, n, ts, required, generalize, c);
    } else {
        assert(ps.take(n) =~= ps);
    }
}

/// Unifying types touches no definition.
pub proof fn lemma_after_unify_keeps(
    actual: Ty,
    expected: Ty,
    location: Location,
    reason: Reason,
    c: Cache,
)
    ensures
        after_unify(actual, expected, location, reason, c) matches Some(c1) ==> c1.definition_infos
            == c.definition_infos && c1.current_level == c.current_level && c1.trait_infos
            == c.trait_infos && c1.type_infos == c.type_infos && c1.call_stack == c.call_stack
            && c1.next_constraint == c.next_constraint && c1.given == c.given && c1.effect_args
            == c.effect_args,
{
    let s = State { solution: Solution::empty(), cache: c };
    law_unify_keeps(MAX_DEPTH as nat, actual, expected, s);
}

/// The type that a pattern is known to have before anything was inferred of it; fresh variables
/// stand for what is not known. `Some((None, _))` if it cannot be told, `None` if a variable has
/// no definition, or has a polytype already.
pub open spec fn pattern_type(p: Pat, c: Cache) -> Option<(Option<Ty>, Cache)>
    decreases p,
{
    match p {
        Pat::Literal(true, _, _) => Some((Some(unit_ty()), c)),
        Pat::Variable(v) => match v.definition {
            None => None,
            Some(id) => if id.0 >= c.definition_infos.len() {
                None
            } else {
                match c.definition_infos[id.0 as int].typ {
                    Some(Scheme::Mono(t)) => Some((Some(t), c)),
                    Some(Scheme::Poly(_, _)) => None,
                    None => Some((Some(Ty::Variable(c.next_id())), c.fresh(c.current_level))),
                }
            },
        },
        Pat::Annotation(_, typ, _) => match typ {
            None => None,
            Some(t) => Some((Some(t), c)),
        },
        Pat::Call { is_pair, args, .. } => if is_pair && args.len() == 2 {
            match pattern_type(args[0], c) {
                None => None,
                Some((None, c1)) => Some((None, c1)),
                Some((Some(a), c1)) => match pattern_type(args[1], c1) {
                    None => None,
                    Some((None, c2)) => Some((None, c2)),
                    Some((Some(b), c2)) => Some((Some(pair_ty(seq![a, b])), c2)),
                },
            }
        } else {
            Some((None, c))
        },
        _ => Some((None, c)),
    }
}

/// The type that the pattern is known to have before anything was inferred of it.
pub fn get_pattern_type(pattern: &Pattern, cache: &mut ModuleCache) -> (r: Option<Option<Type>>)
    ensures
        match pattern_type(pattern@, old(cache)@) {
            Some((typ, c)) => r is Some && opt_ty(r->0) == typ && final(cache)@ == c,
            None => r is None,
        },
    decreases pattern,
{
    match pattern {
        Pattern::Literal(literal) => if literal.is_unit {
            Some(Some(Type::unit()))
        } else {
            Some(None)
        },
        Pattern::Variable(variable) => {
            let id = variable.definition?;
            if id.0 >= cache.definition_infos.len() {
                return None;
            }
            assert(cache@.definition_infos[id.0 as int] == cache.definition_infos@[id.0 as int]@);
            match &cache.definition_infos[id.0].typ {
                Some(GeneralizedType::MonoType(typ)) => Some(Some(typ.clone())),
                Some(GeneralizedType::PolyType(_, _)) => None,
                None => Some(Some(next_type_variable(cache))),
            }
        },
        Pattern::TypeAnnotation(annotation) => match &annotation.typ {
            None => None,
            Some(typ) => Some(Some(typ.clone())),
        },
        Pattern::FunctionCall(call) => {
            assert(pats(call.args@).len() == call.args.len());
            if call.is_pair_constructor && call.args.len() == 2 {
                assert(pats(call.args@)[0] == call.args@[0]@);
                assert(pats(call.args@)[1] == call.args@[1]@);
                let arg1 = match get_pattern_type(&call.args[0], cache)? {
                    Some(arg1) => arg1,
                    None => {
                        return Some(None);
                    },
                };
                let arg2 = match get_pattern_type(&call.args[1], cache)? {
                    Some(arg2) => arg2,
                    None => {
                        return Some(None);
                    },
                };
                let args = vec![arg1, arg2];
                assert(tys(args@) =~= seq![arg1@, arg2@]);
                Some(Some(Type::pair(args)))
            } else {
                Some(None)
            }
        },
        Pattern::Other(_) => Some(None),
    }
}

/// What is met on the way through a pattern.
#[derive(Debug)]
pub enum PatternVisit {
    Variable {
        name: String,
        definition: Option<DefinitionInfoId>,
        impl_scope: Option<ImplScopeId>,
    },
    /// Something that is no pattern.
    Invalid(Location),
}

/// The model of a `PatternVisit`.
#[verifier::ext_equal]
pub enum Visit {
    Variable(Seq<char>, Option<DefinitionInfoId>, Option<ImplScopeId>),
    Invalid(Location),
}

impl View for PatternVisit {
    type V = Visit;

    open spec fn view(&self) -> Visit {
        match self {
            PatternVisit::Variable { name, definition, impl_scope } => Visit::Variable(
                name@,
                *definition,
                *impl_scope,
            ),
            PatternVisit::Invalid(location) => Visit::Invalid(*location),
        }
    }
}

/// The models of what is met on the way through a pattern.
pub open spec fn visits(v: Seq<PatternVisit>) -> Seq<Visit> {
    Seq::new(v.len(), |i: int| v[i]@)
}

/// What is met on the way through a pattern, from left to right.
pub open spec fn visits_of(p: Pat) -> Seq<Visit>
    decreases p,
{
    match p {
        Pat::Variable(v) => seq![Visit::Variable(v.name, v.definition, v.impl_scope)],
        Pat::Annotation(lhs, _, _) => visits_of(*lhs),
        Pat::Call { args, .. } => visits_of_all(args),
        _ => seq![Visit::Invalid(p.location())],
    }
}

/// What is met on the way through several patterns.
pub open spec fn visits_of_all(ps: Seq<Pat>) -> Seq<Visit>
    decreases ps,
{
    if ps.len() == 0 {
        Seq::empty()
    } else {
        visits_of_all(ps.subrange(0, ps.len() - 1)) + visits_of(ps[ps.len() - 1])
    }
}

/// What is done for a variable: given its name, its definition, the scope for impls that it is in
/// and the cache, the cache afterwards. `None` where that is not defined.
pub type Action = spec_fn(
    Seq<char>,
    Option<DefinitionInfoId>,
    Option<ImplScopeId>,
    Cache,
) -> Option<Cache>;

/// Some action taken for each of the first `n` variables met. What is no pattern is reported.
pub open spec fn for_each(
    n: nat,
    vs: Seq<Visit>,
    c: Cache,
    f: Action,
) -> Option<Cache>
    decreases n,
{
    if n == 0 {
        Some(c)
    } else {
        match for_each((n - 1) as nat, vs, c, f) {
            None => None,
            Some(c1) => match vs[n - 1] {
                Visit::Variable(name, definition, scope) => f(name, definition, scope, c1),
                Visit::Invalid(location) => Some(
                    c1.report(location, Report::InvalidSyntaxInIrrefutablePattern),
                ),
            },
        }
    }
}

/// Some action taken for each variable of the pattern. What is no pattern is reported.
pub open spec fn for_each_variable(
    p: Pat,
    c: Cache,
    f: Action,
) -> Option<Cache> {
    for_each(visits_of(p).len(), visits_of(p), c, f)
}

/// Once an action is not defined for a variable, nothing comes after it.
pub proof fn lemma_for_each_none(
    n: nat,
    m: nat,
    vs: Seq<Visit>,
    c: Cache,
    f: Action,
)
    requires
        n <= m,
        for_each(n, vs, c, f) is None,
    ensures
        for_each(m, vs, c, f) is None,
    decreases m,
{
    if n < m {
        lemma_for_each_none(n, (m - 1) as nat, vs, c, f);
    }
}

/// What is met on the way through the pattern. Whoever walks through it takes some action for
/// each variable, and reports what is no pattern.
pub fn foreach_variable(pattern: &Pattern) -> (r: Vec<PatternVisit>)
    ensures
        visits(r@) == visits_of(pattern@),
    decreases pattern,
{
    match pattern {
        Pattern::Variable(variable) => {
            let r = vec![
                PatternVisit::Variable {
                    name: variable.name.clone(),
                    definition: variable.definition,
                    impl_scope: variable.impl_scope,
                },
            ];
            assert(visits(r@) =~= visits_of(pattern@));
            r
        },
        Pattern::TypeAnnotation(annotation) => foreach_variable(&annotation.lhs),
        Pattern::FunctionCall(call) => foreach_variable_in(&call.args),
        _ => {
            let r = vec![PatternVisit::Invalid(pattern.locate())];
            assert(visits(r@) =~= visits_of(pattern@));
            r
        },
    }
}

fn foreach_variable_in(patterns: &Vec<Pattern>) -> (r: Vec<PatternVisit>)
    ensures
        visits(r@) == visits_of_all(pats(patterns@)),
    decreases patterns,
{
    let ghost ps = pats(patterns@);
    let mut r: Vec<PatternVisit> = Vec::new();
    let mut i: usize = 0;
    proof {
        assert(ps.take(0) =~= Seq::empty());
        assert(visits(r@) =~= Seq::empty());
    }
    while i < patterns.len()
        invariant
            i <= patterns.len(),
            ps == pats(patterns@),
            visits(r@) == visits_of_all(ps.take(i as int)),
        decreases patterns.len() - i,
    {
        proof {
            assert(ps.take(i + 1).subrange(0, i as int) =~= ps.take(i as int));
            assert(ps.take(i + 1)[i as int] == patterns@[i as int]@);
        }
        let mut more = foreach_variable(&patterns[i]);
        let ghost sum = visits(r@) + visits(more@);
        r.append(&mut more);
        assert(visits(r@) =~= sum);
        i += 1;
    }
    assert(ps.take(i as int) =~= ps);
    r
}

} // verus!
