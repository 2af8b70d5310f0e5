//! Definitions while they are inferred: marking them, what they close over, and the types they
//! start with.

use crate::bindings::{types_of, TypeBindings};
use crate::cache::{
    constraints, Cache, Constraint, Def, DefinitionInfoId, DefinitionKind, DiagnosticKind,
    GeneralizedType, ImplScopeId, ModuleCache, Report, Scheme, TraitConstraints, VariableId,
};
use crate::instantiate::{constraint_count, constraints_of_use, instance, to_trait_constraints};
use crate::patterns::{
    for_each, for_each_variable, foreach_variable, get_pattern_type, lemma_for_each_none, pats,
    pattern_type, visits, visits_of, Action, Pat, Pattern, PatternVisit, Visit,
};
use crate::results::{append_constraints, applied, make_tuple_type, tuple_ty, unit_ty};
use crate::subst::next_type_variable;
use crate::types::{tys, FunctionType, PrimitiveType, Ty, Type};
use vstd::prelude::*;

verus! {

/// The cache with the definition marked as being inferred: it is on top of the call stack, and a
/// fresh variable stands for its type if it has none.
pub open spec fn in_progress(id: DefinitionInfoId, c: Cache) -> Option<Cache> {
    if id.0 >= c.definition_infos.len() {
        None
    } else {
        let info = c.definition_infos[id.0 as int];
        let pushed = Cache { call_stack: c.call_stack.push(id), ..c };
        Some(
            if info.typ is None {
                pushed.fresh(c.current_level).with_definition(
                    id,
                    Def {
                        typ: Some(Scheme::Mono(Ty::Variable(c.next_id()))),
                        undergoing_type_inference: true,
                        ..info
                    },
                )
            } else {
                pushed.with_definition(id, Def { undergoing_type_inference: true, ..info })
            },
        )
    }
}

/// The cache with the definition no longer marked: it is off the call stack. While it waits for
/// others of a set of mutually recursive definitions it is still undergoing inference.
pub open spec fn finished(id: DefinitionInfoId, mutually_recursive: bool, c: Cache) -> Option<
    Cache,
> {
    if id.0 >= c.definition_infos.len() {
        None
    } else {
        let popped = Cache {
            call_stack: if c.call_stack.len() == 0 {
                c.call_stack
            } else {
                c.call_stack.drop_last()
            },
            ..c
        };
        Some(
            if mutually_recursive {
                popped
            } else {
                popped.with_definition(
                    id,
                    Def {
                        undergoing_type_inference: false,
                        ..c.definition_infos[id.0 as int]
                    },
                )
            },
        )
    }
}

/// Whether a result and the cache left behind are those their model says.
pub open spec fn is_cache(r: Option<()>, c: Cache, m: Option<Cache>) -> bool {
    match m {
        Some(c1) => r is Some && c == c1,
        None => r is None,
    }
}

/// Sets the type of a definition.
pub fn set_definition_type(id: DefinitionInfoId, typ: GeneralizedType, cache: &mut ModuleCache)
    requires
        id.0 < old(cache)@.definition_infos.len(),
    ensures
        final(cache)@ == old(cache)@.with_definition(
            id,
            Def { typ: Some(typ@), ..old(cache)@.definition_infos[id.0 as int] },
        ),
{
    let ghost c = cache@;
    let ghost s = typ@;
    assert(c.definition_infos[id.0 as int] == cache.definition_infos@[id.0 as int]@);
    cache.definition_infos[id.0].typ = Some(typ);
    assert(cache@.definition_infos =~= c.with_definition(
        id,
        Def { typ: Some(s), ..c.definition_infos[id.0 as int] },
    ).definition_infos);
}

/// Marks the definition as currently being inferred.
pub fn mark_id_in_progress(id: DefinitionInfoId, cache: &mut ModuleCache) -> (r: Option<()>)
    ensures
        is_cache(r, final(cache)@, in_progress(id, old(cache)@)),
{
    if id.0 >= cache.definition_infos.len() {
        return None;
    }
    let ghost c = cache@;
    assert(c.definition_infos[id.0 as int] == cache.definition_infos@[id.0 as int]@);
    cache.call_stack.push(id);
    cache.definition_infos[id.0].undergoing_type_inference = true;
    proof {
        let def = Def {
            undergoing_type_inference: true,
            ..c.definition_infos[id.0 as int]
        };
        assert(cache@.definition_infos =~= c.with_definition(id, def).definition_infos);
        assert(cache@.definition_infos[id.0 as int] == def);
    }
    if cache.definition_infos[id.0].typ.is_none() {
        // Recursive uses refer to the type by this variable.
        let typevar = next_type_variable(cache);
        set_definition_type(id, GeneralizedType::MonoType(typevar), cache);
        assert(cache@.definition_infos =~= in_progress(id, c)->0.definition_infos);
    }
    Some(())
}

/// Takes the mark off the definition.
pub fn mark_id_finished(
    id: DefinitionInfoId,
    mutually_recursive: bool,
    cache: &mut ModuleCache,
) -> (r: Option<()>)
    ensures
        is_cache(r, final(cache)@, finished(id, mutually_recursive, old(cache)@)),
{
    if id.0 >= cache.definition_infos.len() {
        return None;
    }
    let ghost c = cache@;
    assert(c.definition_infos[id.0 as int] == cache.definition_infos@[id.0 as int]@);
    let _ = cache.call_stack.pop();
    if !mutually_recursive {
        cache.definition_infos[id.0].undergoing_type_inference = false;
        proof {
            let def = Def {
                undergoing_type_inference: false,
                ..c.definition_infos[id.0 as int]
            };
            assert(cache@.definition_infos =~= c.with_definition(id, def).definition_infos);
        }
    }
    Some(())
}

/// Marking the definition of a variable as being inferred.
pub open spec fn marking() -> Action {
    |name, definition: Option<DefinitionInfoId>, scope, c: Cache|
        match definition {
            Some(id) => in_progress(id, c),
            None => None,
        }
}

/// Taking the mark off the definition of a variable.
pub open spec fn unmarking(mutually_recursive: Seq<DefinitionInfoId>) -> Action {
    |name, definition: Option<DefinitionInfoId>, scope, c: Cache|
        match definition {
            Some(id) => finished(id, mutually_recursive.contains(id), c),
            None => None,
        }
}

/// Marks the definitions of all variables of the pattern as being inferred.
pub fn mark_pattern_ids_in_progress(pattern: &Pattern, cache: &mut ModuleCache) -> (r: Option<()>)
    ensures
        is_cache(r, final(cache)@, for_each_variable(pattern@, old(cache)@, marking())),
{
    let found = foreach_variable(pattern);
    let ghost vs = visits_of(pattern@);
    let ghost c = cache@;
    let mut i: usize = 0;
    while i < found.len()
        invariant
            i <= found.len(),
            vs == visits(found@),
            vs == visits_of(pattern@),
            c == old(cache)@,
            for_each(i as nat, vs, c, marking()) == Some(cache@),
        decreases found.len() - i,
    {
        assert(vs[i as int] == found@[i as int]@);
        match &found[i] {
            PatternVisit::Variable { definition, .. } => {
                let done = match definition {
                    Some(id) => mark_id_in_progress(*id, cache),
                    None => None,
                };
                if done.is_none() {
                    proof {
                        lemma_for_each_none((i + 1) as nat, vs.len(), vs, c, marking());
                    }
                    return None;
                }
            },
            PatternVisit::Invalid(location) => {
                cache.push_diagnostic(
                    *location,
                    DiagnosticKind::InvalidSyntaxInIrrefutablePattern,
                );
            },
        }
        i += 1;
    }
    Some(())
}

/// Takes the mark off the definitions of all variables of the pattern. Those in the list are part
/// of a set of mutually recursive definitions that is not done yet.
pub fn finish_pattern(
    pattern: &Pattern,
    mutually_recursive: &[DefinitionInfoId],
    cache: &mut ModuleCache,
) -> (r: Option<()>)
    ensures
        is_cache(
            r,
            final(cache)@,
            for_each_variable(pattern@, old(cache)@, unmarking(mutually_recursive@)),
        ),
{
    let found = foreach_variable(pattern);
    let ghost vs = visits_of(pattern@);
    let ghost c = cache@;
    let ghost f = unmarking(mutually_recursive@);
    let mut i: usize = 0;
    while i < found.len()
        invariant
            i <= found.len(),
            vs == visits(found@),
            vs == visits_of(pattern@),
            c == old(cache)@,
            f == unmarking(mutually_recursive@),
            for_each(i as nat, vs, c, f) == Some(cache@),
        decreases found.len() - i,
    {
        assert(vs[i as int] == found@[i as int]@);
        match &found[i] {
            PatternVisit::Variable { definition, .. } => {
                let done = match definition {
                    Some(id) => {
                        let waits = is_in(mutually_recursive, *id);
                        mark_id_finished(*id, waits, cache)
                    },
                    None => None,
                };
                if done.is_none() {
                    proof {
                        lemma_for_each_none((i + 1) as nat, vs.len(), vs, c, f);
                    }
                    return None;
                }
            },
            PatternVisit::Invalid(location) => {
                cache.push_diagnostic(
                    *location,
                    DiagnosticKind::InvalidSyntaxInIrrefutablePattern,
                );
            },
        }
        i += 1;
    }
    Some(())
}

/// Whether the list holds the definition.
pub fn is_in(list: &[DefinitionInfoId], id: DefinitionInfoId) -> (r: bool)
    ensures
        r == list@.contains(id),
{
    let mut i: usize = 0;
    while i < list.len()
        invariant
            i <= list.len(),
            forall|j: int| 0 <= j < i ==> list@[j] != id,
        decreases list.len() - i,
    {
        if list[i] == id {
            assert(list@[i as int] == id);
            return true;
        }
        i += 1;
    }
    false
}

/// Whether a definition of this kind marks its own variables when it is inferred.
pub open spec fn marks_itself(kind: DefinitionKind) -> bool {
    kind == DefinitionKind::Definition
}

/// Whether a definition of this kind has a node of its own, whose inference gives the definition
/// its type. The others get theirs where the node that they are part of is inferred.
pub open spec fn has_own_node(kind: DefinitionKind) -> bool {
    kind == DefinitionKind::Definition || kind == DefinitionKind::TraitDefinition || kind
        == DefinitionKind::EffectDefinition || kind == DefinitionKind::Extern
}

impl DefinitionKind {
    /// Whether a definition of this kind has a node of its own to infer.
    pub fn has_node(self) -> (r: bool)
        ensures
            r == has_own_node(self),
    {
        match self {
            DefinitionKind::Definition => true,
            DefinitionKind::TraitDefinition => true,
            DefinitionKind::EffectDefinition => true,
            DefinitionKind::Extern => true,
            DefinitionKind::Parameter => false,
            DefinitionKind::MatchPattern => false,
            DefinitionKind::TypeConstructor => false,
        }
    }
}

/// Begins to infer the definition that a variable refers to: marks it as in progress, unless it is
/// a definition that marks itself. Tells what kind of definition it is: whoever called infers its
/// node, if it has one, and hands the constraints of that to `end_nested_definition`.
pub fn begin_nested_definition(id: DefinitionInfoId, cache: &mut ModuleCache) -> (r: Option<
    DefinitionKind,
>)
    ensures
        id.0 < old(cache)@.definition_infos.len() && old(cache)@.definition_infos[id.0 as int]
            .definition is Some ==> r == old(cache)@.definition_infos[id.0 as int].definition
            && if marks_itself(r->0) {
            final(cache)@ == old(cache)@
        } else {
            Some(final(cache)@) == in_progress(id, old(cache)@)
        },
        !(id.0 < old(cache)@.definition_infos.len() && old(cache)@.definition_infos[id.0 as int]
            .definition is Some) ==> r is None && final(cache)@ == old(cache)@,
{
    if id.0 >= cache.definition_infos.len() {
        return None;
    }
    assert(cache@.definition_infos[id.0 as int] == cache.definition_infos@[id.0 as int]@);
    let kind = cache.definition_infos[id.0].definition?;
    if kind != DefinitionKind::Definition {
        mark_id_in_progress(id, cache)?;
    }
    Some(kind)
}

/// What inferring a nested definition comes to: its type, its constraints and the cache.
pub open spec fn nested_definition(
    id: DefinitionInfoId,
    kind: DefinitionKind,
    traits: Seq<Constraint>,
    mutually_recursive: bool,
    scope: ImplScopeId,
    callsite: VariableId,
    c: Cache,
) -> Option<(Scheme, Seq<Constraint>, Cache)> {
    let ended = if marks_itself(kind) {
        Some(c)
    } else {
        finished(id, mutually_recursive, c)
    };
    match ended {
        None => None,
        Some(c1) => if id.0 < c1.definition_infos.len() && c1.next_constraint + constraint_count(
            c1,
            id,
        ) <= usize::MAX && c1.definition_infos[id.0 as int].typ is Some {
            Some(
                (
                    c1.definition_infos[id.0 as int].typ->0,
                    traits + constraints_of_use(c1, id, scope, callsite),
                    Cache {
                        next_constraint: (c1.next_constraint + constraint_count(c1, id)) as usize,
                        ..c1
                    },
                ),
            )
        } else {
            None
        },
    }
}

/// Ends what `begin_nested_definition` began, with the constraints that inferring the node of the
/// definition gave. The result is the type of the definition and all the constraints that its use
/// gives rise to.
pub fn end_nested_definition(
    id: DefinitionInfoId,
    kind: DefinitionKind,
    traits: TraitConstraints,
    mutually_recursive: bool,
    scope: ImplScopeId,
    callsite: VariableId,
    cache: &mut ModuleCache,
) -> (r: Option<(GeneralizedType, TraitConstraints)>)
    ensures
        match nested_definition(
            id,
            kind,
            constraints(traits@),
            mutually_recursive,
            scope,
            callsite,
            old(cache)@,
        ) {
            None => r is None,
            Some((scheme, all, c)) => r matches Some((typ, more)) && typ@ == scheme && constraints(
                more@,
            ) == all && final(cache)@ == c,
        },
{
    if kind != DefinitionKind::Definition {
        mark_id_finished(id, mutually_recursive, cache)?;
    }
    let mut traits = traits;
    let mut more = to_trait_constraints(id, scope, callsite, cache)?;
    append_constraints(&mut traits, &mut more);
    assert(cache@.definition_infos[id.0 as int] == cache.definition_infos@[id.0 as int]@);
    match &cache.definition_infos[id.0].typ {
        Some(typ) => Some((typ.clone(), traits)),
        None => None,
    }
}

/// A variable that a closure captures: the definition outside, the definition that stands for it
/// inside, and the bindings at which the outer one is used.
#[derive(Debug)]
pub struct Capture {
    pub from: DefinitionInfoId,
    pub to: DefinitionInfoId,
    pub bindings: TypeBindings,
}

/// All that a closure captures, ordered by the definitions outside.
pub type ClosureEnvironment = Vec<Capture>;

/// The model of a `Capture`.
#[verifier::ext_equal]
pub struct Captured {
    pub from: DefinitionInfoId,
    pub to: DefinitionInfoId,
    pub bindings: Map<usize, Ty>,
}

impl View for Capture {
    type V = Captured;

    open spec fn view(&self) -> Captured {
        Captured { from: self.from, to: self.to, bindings: types_of(self.bindings@) }
    }
}

/// The models of captured variables.
pub open spec fn captures(v: Seq<Capture>) -> Seq<Captured> {
    Seq::new(v.len(), |i: int| v[i]@)
}

/// The captured variable with the type it has outside, instantiated, and the cache in which the
/// definition inside has that type. Left alone if the type is not known.
pub open spec fn bound_capture(v: Captured, c: Cache) -> Option<(Captured, Cache)> {
    if v.from.0 >= c.definition_infos.len() {
        None
    } else {
        match c.definition_infos[v.from.0 as int].typ {
            None => Some((v, c)),
            Some(scheme) => match instance(scheme, Seq::empty(), c) {
                None => None,
                Some(i) => if v.to.0 < i.cache.definition_infos.len()
                    && i.cache.definition_infos[v.to.0 as int].typ is None {
                    Some(
                        (
                            Captured { bindings: i.types, ..v },
                            i.cache.with_definition(
                                v.to,
                                Def {
                                    typ: Some(Scheme::Mono(i.typ)),
                                    ..i.cache.definition_infos[v.to.0 as int]
                                },
                            ),
                        ),
                    )
                } else {
                    None
                },
            },
        }
    }
}

/// The first `n` captured variables bound in turn.
pub open spec fn bound_captures(n: nat, vs: Seq<Captured>, c: Cache) -> Option<
    (Seq<Captured>, Cache),
>
    decreases n,
{
    if n == 0 {
        Some((Seq::empty(), c))
    } else {
        match bound_captures((n - 1) as nat, vs, c) {
            None => None,
            Some((front, c1)) => match bound_capture(vs[n - 1], c1) {
                None => None,
                Some((last, c2)) => Some((front.push(last), c2)),
            },
        }
    }
}

proof fn lemma_bound_captures_none(n: nat, m: nat, vs: Seq<Captured>, c: Cache)
    requires
        n <= m,
        bound_captures(n, vs, c) is None,
    ensures
        bound_captures(m, vs, c) is None,
    decreases m,
{
    if n < m {
        lemma_bound_captures_none(n, (m - 1) as nat, vs, c);
    }
}

impl Capture {
    fn bind_in(&mut self, cache: &mut ModuleCache) -> (r: Option<()>)
        ensures
            match bound_capture(old(self)@, old(cache)@) {
                None => r is None,
                Some((v, c)) => r is Some && final(self)@ == v && final(cache)@ == c,
            },
    {
        if self.from.0 >= cache.definition_infos.len() {
            return None;
        }
        assert(cache@.definition_infos[self.from.0 as int]
            == cache.definition_infos@[self.from.0 as int]@);
        let scheme = match &cache.definition_infos[self.from.0].typ {
            None => {
                return Some(());
            },
            Some(scheme) => scheme.clone(),
        };
        let none: TraitConstraints = Vec::new();
        assert(constraints(none@) =~= Seq::empty());
        let (typ, _, bindings) = scheme.instantiate_at(none, cache)?;
        if self.to.0 >= cache.definition_infos.len() {
            return None;
        }
        assert(cache@.definition_infos[self.to.0 as int]
            == cache.definition_infos@[self.to.0 as int]@);
        if cache.definition_infos[self.to.0].typ.is_some() {
            return None;
        }
        // The variables inside the closure are monomorphic, as parameters are.
        set_definition_type(self.to, GeneralizedType::MonoType(typ), cache);
        self.bindings = bindings;
        Some(())
    }
}

/// Gives the variables that a closure captures the types they have outside, so that these are
/// known when its body is inferred. `None` if one of them is not in the cache, or has a type inside
/// already.
pub fn bind_closure_environment(
    environment: &mut ClosureEnvironment,
    cache: &mut ModuleCache,
) -> (r: Option<()>)
    ensures
        match bound_captures(
            old(environment)@.len(),
            captures(old(environment)@),
            old(cache)@,
        ) {
            None => r is None,
            Some((vs, c)) => r is Some && captures(final(environment)@) == vs && final(cache)@
                == c,
        },
{
    let ghost vs = captures(environment@);
    let ghost c = cache@;
    let mut i: usize = 0;
    assert(captures(environment@).take(0) =~= Seq::empty());
    while i < environment.len()
        invariant
            i <= environment.len(),
            environment.len() == old(environment).len(),
            vs == captures(old(environment)@),
            c == old(cache)@,
            forall|j: int| i <= j < environment.len() ==> environment@[j] == old(environment)@[j],
            bound_captures(i as nat, vs, c) == Some(
                (captures(environment@).take(i as int), cache@),
            ),
        decreases environment.len() - i,
    {
        let ghost before = environment@;
        assert(vs[i as int] == environment@[i as int]@);
        let capture = &mut environment[i];
        let done = capture.bind_in(cache);
        if done.is_none() {
            proof {
                lemma_bound_captures_none((i + 1) as nat, vs.len(), vs, c);
            }
            return None;
        }
        assert(captures(environment@).take(i + 1) =~= captures(before).take(i as int).push(
            environment@[i as int]@,
        ));
        i += 1;
    }
    assert(captures(environment@).take(i as int) =~= captures(environment@));
    Some(())
}

/// The types of the captured variables. `None` unless each has a monotype.
pub open spec fn capture_types(vs: Seq<Captured>, c: Cache) -> Option<Seq<Ty>> {
    if forall|i: int|
        0 <= i < vs.len() ==> (#[trigger] vs[i]).to.0 < c.definition_infos.len()
            && c.definition_infos[vs[i].to.0 as int].typ matches Some(Scheme::Mono(_)) {
        Some(
            Seq::new(
                vs.len(),
                |i: int| c.definition_infos[vs[i].to.0 as int].typ->0.body(),
            ),
        )
    } else {
        None
    }
}

/// The type of an environment with the given members.
pub open spec fn environment_ty(types: Seq<Ty>) -> Ty {
    if types.len() == 0 {
        unit_ty()
    } else {
        tuple_ty(types)
    }
}

/// The type of what a closure captures: unit if that is nothing, and else a tuple of it all.
pub fn infer_closure_environment(environment: &ClosureEnvironment, cache: &ModuleCache) -> (r:
    Option<Type>)
    ensures
        match capture_types(captures(environment@), cache@) {
            None => r is None,
            Some(types) => r is Some && r->0@ == environment_ty(types),
        },
{
    let ghost vs = captures(environment@);
    let ghost c = cache@;
    let mut types: Vec<Type> = Vec::new();
    let mut i: usize = 0;
    while i < environment.len()
        invariant
            i <= environment.len(),
            types.len() == i,
            vs == captures(environment@),
            c == cache@,
            forall|j: int|
                0 <= j < i ==> (#[trigger] vs[j]).to.0 < c.definition_infos.len()
                    && c.definition_infos[vs[j].to.0 as int].typ matches Some(Scheme::Mono(_)),
            forall|j: int|
                0 <= j < i ==> (#[trigger] types@[j])@ == c.definition_infos[vs[j].to.0 as int]
                    .typ->0.body(),
        decreases environment.len() - i,
    {
        let to = environment[i].to;
        assert(vs[i as int] == environment@[i as int]@);
        if to.0 >= cache.definition_infos.len() {
            return None;
        }
        assert(c.definition_infos[to.0 as int] == cache.definition_infos@[to.0 as int]@);
        match &cache.definition_infos[to.0].typ {
            Some(GeneralizedType::MonoType(typ)) => {
                types.push(typ.clone());
            },
            _ => {
                return None;
            },
        }
        i += 1;
    }
    let ghost ts = tys(types@);
    assert(ts =~= capture_types(vs, c)->0);
    if types.len() == 0 {
        Some(Type::unit())
    } else if types.len() == 1 {
        assert(ts[0] == types@[0]@);
        Some(types[0].clone())
    } else {
        Some(make_tuple_type(types))
    }
}

/// The type of a continuation, which nothing looks into: a pointer to something.
pub open spec fn continuation_ty() -> Ty {
    applied(PrimitiveType::Ptr, unit_ty())
}

/// The type of the environment of `resume`: the continuation, and with it the free variables of
/// the handler.
pub fn resume_environment_type(free_variables: Vec<(DefinitionInfoId, Type)>) -> (r: Type)
    ensures
        r@ == tuple_ty(seq![continuation_ty()] + free_tys(free_variables@)),
{
    let args = vec![Type::unit()];
    assert(tys(args@) =~= seq![unit_ty()]);
    let ptr = Type::Primitive(PrimitiveType::Ptr);
    assert(ptr@ == Ty::Primitive(PrimitiveType::Ptr));
    let continuation_type = Type::TypeApplication(Box::new(ptr), args);
    let ghost free = free_tys(free_variables@);
    let mut env = vec![continuation_type];
    assert(tys(env@) =~= seq![continuation_ty()] + free.take(0));
    let mut i: usize = 0;
    while i < free_variables.len()
        invariant
            i <= free_variables.len(),
            free == free_tys(free_variables@),
            env.len() == i + 1,
            tys(env@) == seq![continuation_ty()] + free.take(i as int),
        decreases free_variables.len() - i,
    {
        let ghost before = tys(env@);
        let typ = free_variables[i].1.clone();
        let ghost t = typ@;
        env.push(typ);
        proof {
            assert(tys(env@) =~= before.push(t));
            assert(free.take(i + 1) =~= free.take(i as int).push(t));
            assert(seq![continuation_ty()] + free.take(i + 1) =~= before.push(t));
        }
        i += 1;
    }
    assert(free.take(i as int) =~= free);
    if env.len() == 1 {
        assert(tys(env@)[0] == env@[0]@);
        env[0].clone()
    } else {
        make_tuple_type(env)
    }
}

/// The types of the free variables.
pub open spec fn free_tys(v: Seq<(DefinitionInfoId, Type)>) -> Seq<Ty> {
    Seq::new(v.len(), |i: int| v[i].1@)
}

/// The definition of the last of the first `n` variables met, and the cache in which what is no
/// pattern was reported.
pub open spec fn last_definition(n: nat, vs: Seq<Visit>, c: Cache) -> (
    Option<DefinitionInfoId>,
    Cache,
)
    decreases n,
{
    if n == 0 {
        (None, c)
    } else {
        let (id, c1) = last_definition((n - 1) as nat, vs, c);
        match vs[n - 1] {
            Visit::Variable(_, definition, _) => (definition, c1),
            Visit::Invalid(location) => (
                id,
                c1.report(location, Report::InvalidSyntaxInIrrefutablePattern),
            ),
        }
    }
}

/// The types that the patterns are known to have. `Some((None, _))` if one of them cannot be told.
pub open spec fn pattern_types(n: nat, ps: Seq<Pat>, c: Cache) -> Option<(Option<Seq<Ty>>, Cache)>
    decreases n,
{
    if n == 0 {
        Some((Some(Seq::empty()), c))
    } else {
        match pattern_types((n - 1) as nat, ps, c) {
            None => None,
            Some((None, c1)) => Some((None, c1)),
            Some((Some(front), c1)) => match pattern_type(ps[n - 1], c1) {
                None => None,
                Some((None, c2)) => Some((None, c2)),
                Some((Some(t), c2)) => Some((Some(front.push(t)), c2)),
            },
        }
    }
}

proof fn lemma_pattern_types_early(n: nat, m: nat, ps: Seq<Pat>, c: Cache)
    requires
        n <= m,
        !(pattern_types(n, ps, c) matches Some((Some(_), _))),
    ensures
        pattern_types(m, ps, c) == pattern_types(n, ps, c),
    decreases m,
{
    if n < m {
        lemma_pattern_types_early(n, (m - 1) as nat, ps, c);
    }
}

/// What giving a function its first type makes of the cache: the definition of the variable, if
/// it has no type yet, gets a function type with all that is known of the parameters and of the
/// result.
pub open spec fn function_initialized(
    p: Pat,
    parameters: Seq<Pat>,
    body_type: Option<Ty>,
    c: Cache,
) -> Option<Cache> {
    let vs = visits_of(p);
    match last_definition(vs.len(), vs, c) {
        (None, c1) => Some(c1),
        (Some(id), c1) => if id.0 >= c1.definition_infos.len() {
            None
        } else if c1.definition_infos[id.0 as int].typ is Some {
            Some(c1)
        } else {
            match pattern_types(parameters.len(), parameters, c1) {
                None => None,
                Some((None, c2)) => Some(c2),
                Some((Some(types), c2)) => {
                    let level = c2.current_level;
                    let (return_type, c3) = match body_type {
                        Some(t) => (t, c2),
                        None => (Ty::Variable(c2.next_id()), c2.fresh(level)),
                    };
                    let c4 = c3.fresh(level);
                    let typ = Ty::Function {
                        parameters: types,
                        return_type: Box::new(return_type),
                        environment: Box::new(Ty::Variable(c3.next_id())),
                        effects: Box::new(Ty::Variable(c4.next_id())),
                        has_varargs: false,
                    };
                    let c5 = c4.fresh(level);
                    Some(
                        c5.with_definition(
                            id,
                            Def {
                                typ: Some(Scheme::Mono(typ)),
                                ..c5.definition_infos[id.0 as int]
                            },
                        ),
                    )
                },
            }
        },
    }
}

/// Gives a function a type before its body is inferred, from its pattern and its parameters. That
/// improves what is reported where it is used recursively.
pub fn initialize_function_type(
    pattern: &Pattern,
    parameters: &Vec<Pattern>,
    body_type: Option<&Type>,
    cache: &mut ModuleCache,
) -> (r: Option<()>)
    ensures
        is_cache(
            r,
            final(cache)@,
            function_initialized(
                pattern@,
                pats(parameters@),
                match body_type {
                    Some(t) => Some(t@),
                    None => None,
                },
                old(cache)@,
            ),
        ),
{
    let found = foreach_variable(pattern);
    let ghost vs = visits_of(pattern@);
    let ghost ps = pats(parameters@);
    let ghost c = cache@;
    let mut definition_id: Option<DefinitionInfoId> = None;
    let mut i: usize = 0;
    while i < found.len()
        invariant
            i <= found.len(),
            vs == visits(found@),
            last_definition(i as nat, vs, c) == (definition_id, cache@),
        decreases found.len() - i,
    {
        assert(vs[i as int] == found@[i as int]@);
        match &found[i] {
            PatternVisit::Variable { definition, .. } => {
                definition_id = *definition;
            },
            PatternVisit::Invalid(location) => {
                cache.push_diagnostic(
                    *location,
                    DiagnosticKind::InvalidSyntaxInIrrefutablePattern,
                );
            },
        }
        i += 1;
    }
    let id = match definition_id {
        Some(id) => id,
        None => {
            return Some(());
        },
    };
    if id.0 >= cache.definition_infos.len() {
        return None;
    }
    assert(cache@.definition_infos[id.0 as int] == cache.definition_infos@[id.0 as int]@);
    if cache.definition_infos[id.0].typ.is_some() {
        return Some(());
    }
    let ghost c1 = cache@;
    let mut types: Vec<Type> = Vec::new();
    let mut i: usize = 0;
    proof {
        lemma_last_definition_keeps(vs.len(), vs, c);
        assert(tys(types@) =~= Seq::empty());
    }
    while i < parameters.len()
        invariant
            i <= parameters.len(),
            ps == pats(parameters@),
            ps.len() == parameters.len(),
            vs == visits_of(pattern@),
            c == old(cache)@,
            last_definition(vs.len(), vs, c) == (Some(id), c1),
            id.0 < c1.definition_infos.len(),
            c1.definition_infos[id.0 as int].typ is None,
            cache@.definition_infos == c1.definition_infos,
            cache@.current_level == c1.current_level,
            pattern_types(i as nat, ps, c1) == Some((Some(tys(types@)), cache@)),
        decreases parameters.len() - i,
    {
        let ghost before = tys(types@);
        assert(ps[i as int] == parameters@[i as int]@);
        proof {
            lemma_pattern_type_keeps(ps[i as int], cache@);
        }
        let found = get_pattern_type(&parameters[i], cache);
        match found {
            None => {
                proof {
                    lemma_pattern_types_early((i + 1) as nat, ps.len(), ps, c1);
                }
                return None;
            },
            Some(None) => {
                proof {
                    lemma_pattern_types_early((i + 1) as nat, ps.len(), ps, c1);
                }
                return Some(());
            },
            Some(Some(typ)) => {
                let ghost t = typ@;
                types.push(typ);
                assert(tys(types@) =~= before.push(t));
            },
        }
        i += 1;
    }
    let return_type = match body_type {
        Some(t) => t.clone(),
        None => next_type_variable(cache),
    };
    let environment = next_type_variable(cache);
    let effects = next_type_variable(cache);
    let function_type = Type::Function(
        FunctionType {
            parameters: types,
            return_type: Box::new(return_type),
            environment: Box::new(environment),
            effects: Box::new(effects),
            has_varargs: false,
        },
    );
    set_definition_type(id, GeneralizedType::MonoType(function_type), cache);
    Some(())
}

proof fn lemma_last_definition_keeps(n: nat, vs: Seq<Visit>, c: Cache)
    ensures
        last_definition(n, vs, c).1.definition_infos == c.definition_infos,
        last_definition(n, vs, c).1.current_level == c.current_level,
    decreases n,
{
    if n > 0 {
        lemma_last_definition_keeps((n - 1) as nat, vs, c);
    }
}

proof fn lemma_pattern_type_keeps(p: Pat, c: Cache)
    ensures
        pattern_type(p, c) matches Some((_, c1)) ==> c1.definition_infos == c.definition_infos
            && c1.current_level == c.current_level,
    decreases p,
{
    if let Pat::Call { is_pair: true, args, .. } = p {
        if args.len() == 2 {
            lemma_pattern_type_keeps(args[0], c);
            if let Some((Some(a), c1)) = pattern_type(args[0], c) {
                lemma_pattern_type_keeps(args[1], c1);
            }
        }
    }
}

} // verus!
