//! Functions: their bodies and their calls.

use crate::bindings::UnificationBindings;
use crate::cache::{
    required_traits, Cache, Location, ModuleCache, Reason, RequiredTrait, TypeErrorKind,
};
use crate::definitions::{
    bind_closure_environment, bound_captures, capture_types, captures, environment_ty,
    infer_closure_environment, ClosureEnvironment,
};
use crate::effect_sets::{flat, EffectRow};
use crate::expressions::infer_and_combine;
use crate::occurs::{occurs_in, occurs_in_function};
use crate::patterns::{
    bind_irrefutable_patterns, bound_patterns, fresh_types, next_type_variables, opt_ty, pats,
    Pattern,
};
use crate::results::{result_of, TypeResult, Typing};
use crate::rules::{call_reported, issue_argument_types_error, Place};
use crate::solve::{after_unify, fresh_unification, mismatch, try_unify_at, unify_or_report};
use crate::subst::{next_type_variable, next_type_variable_id};
use crate::tree::{
    infer, inferred, trees, Expression, Inferable, Locatable, Node, Outcome, Tree, Typed,
};
use crate::types::{effect_tys, tys, EffectSet, FunctionType, Ty, Type};
use crate::unify::RECURSION_LIMIT;
use vstd::prelude::*;

verus! {

/// A function.
#[derive(Debug)]
pub struct Lambda<A> {
    pub args: Vec<Pattern>,
    pub closure_environment: ClosureEnvironment,
    pub body: Box<A>,
    pub location: Location,
    pub typ: Option<Type>,
}

impl<A: Node> Node for Lambda<A> {
    open spec fn tree(&self) -> Tree {
        Tree::Lambda {
            parameters: pats(self.args@),
            environment: captures(self.closure_environment@),
            body: Box::new(self.body.tree()),
            location: self.location,
            typ: opt_ty(self.typ),
        }
    }
}

impl<A: Node> Locatable for Lambda<A> {
    fn locate(&self) -> (r: Location) {
        self.location
    }
}

impl<A: Node> Typed for Lambda<A> {
    fn get_type(&self) -> (r: Option<&Type>) {
        self.typ.as_ref()
    }

    fn set_type(&mut self, typ: Type) {
        self.typ = Some(typ);
    }
}

/// The outcome for the body of a function. A type that it carries was written by the user as the
/// type of the result: the body has to be of that type.
pub open spec fn body_inferred<A: Inferable>(body: Tree, location: Location, c: Cache) -> Option<
    Outcome,
> {
    match body.type_of() {
        None => inferred::<A>(body, c),
        Some(declared) => match A::rule(body, c) {
            None => None,
            Some(o) => match after_unify(
                o.result.typ,
                declared,
                location,
                Reason::FunctionBodyDoesNotMatchReturnType,
                o.cache,
            ) {
                None => None,
                Some(cache) => Some(Outcome { cache, ..o }),
            },
        },
    }
}

/// A function type with the given effects.
pub open spec fn function_ty(
    parameters: Seq<Ty>,
    return_type: Ty,
    environment: Ty,
    effects: Ty,
) -> Ty {
    Ty::Function {
        parameters,
        return_type: Box::new(return_type),
        environment: Box::new(environment),
        effects: Box::new(effects),
        has_varargs: false,
    }
}

/// The type of a function with the given effects. They are closed, so that no effects can be added
/// to them later, unless the variable they are open in stands elsewhere in the type as well.
pub open spec fn closed_function(
    parameters: Seq<Ty>,
    return_type: Ty,
    environment: Ty,
    effects: EffectRow,
    c: Cache,
) -> Option<Ty> {
    let closed = function_ty(
        parameters,
        return_type,
        environment,
        Ty::Effects(effects.0, None),
    );
    match effects.1 {
        None => Some(closed),
        Some(extension) => match occurs_in(
            (RECURSION_LIMIT + 1) as nat,
            extension,
            c.current_level,
            closed,
            Map::empty(),
            c.type_bindings,
        ) {
            None => None,
            Some((true, _)) => Some(
                function_ty(
                    parameters,
                    return_type,
                    environment,
                    Ty::Effects(effects.0, Some(extension)),
                ),
            ),
            Some((false, _)) => Some(closed),
        },
    }
}

impl<A: Expression> Inferable for Lambda<A> {
    /// ```text
    ///      c, x : t1 |- e : t2 | es
    /// ---------------------------------
    ///  c |- fn x -> e : t1 -> t2 can es
    /// ```
    open spec fn rule(t: Tree, c: Cache) -> Option<Outcome> {
        match t {
            Tree::Lambda { parameters, environment, body, location, typ } => {
                let (types, c1) = fresh_types(parameters.len(), c);
                match bound_patterns(parameters, types, Seq::empty(), false, c1) {
                    None => None,
                    Some((parameters1, c2)) => match bound_captures(
                        environment.len(),
                        environment,
                        c2,
                    ) {
                        None => None,
                        Some((environment1, c3)) => match body_inferred::<A>(
                            *body,
                            location,
                            c3,
                        ) {
                            None => None,
                            Some(o) => match (
                                flat(o.result.effects, o.cache),
                                capture_types(environment1, o.cache),
                            ) {
                                (Some(effects), Some(captured)) => match closed_function(
                                    types,
                                    o.result.typ,
                                    environment_ty(captured),
                                    effects,
                                    o.cache,
                                ) {
                                    None => None,
                                    Some(function) => {
                                        let (result, cache) = result_of(
                                            function,
                                            o.result.traits,
                                            o.cache,
                                        );
                                        Some(
                                            Outcome {
                                                tree: Tree::Lambda {
                                                    parameters: parameters1,
                                                    environment: environment1,
                                                    body: Box::new(o.tree),
                                                    location,
                                                    typ,
                                                },
                                                result,
                                                cache,
                                            },
                                        )
                                    },
                                },
                                _ => None,
                            },
                        },
                    },
                }
            },
            _ => None,
        }
    }

    fn infer_impl(&mut self, cache: &mut ModuleCache) -> (r: Option<TypeResult>) {
        assert(pats(self.args@).len() == self.args.len());
        assert(captures(self.closure_environment@).len() == self.closure_environment.len());
        let parameter_types = next_type_variables(self.args.len(), cache);
        let none: Vec<RequiredTrait> = Vec::new();
        assert(required_traits(none@) =~= Seq::empty());
        bind_irrefutable_patterns(&mut self.args, &parameter_types, &none, false, cache)?;
        bind_closure_environment(&mut self.closure_environment, cache)?;
        let declared = match self.body.get_type() {
            Some(typ) => Some(typ.clone()),
            None => None,
        };
        let body = match declared {
            Some(typ) => {
                let body = self.body.infer_impl(cache)?;
                unify_or_report(
                    &body.typ,
                    &typ,
                    self.location,
                    cache,
                    TypeErrorKind::FunctionBodyDoesNotMatchReturnType,
                )?;
                body
            },
            None => infer(&mut *self.body, cache)?,
        };
        let effects = body.effects.flatten(cache)?;
        let environment = infer_closure_environment(&self.closure_environment, cache)?;
        let typ = close_function(
            parameter_types,
            body.typ,
            environment,
            effects,
            cache,
        )?;
        Some(TypeResult::new(typ, body.traits, cache))
    }
}

/// The type of a function with the given effects, closed if they can be.
fn close_function(
    parameters: Vec<Type>,
    return_type: Type,
    environment: Type,
    effects: EffectSet,
    cache: &ModuleCache,
) -> (r: Option<Type>)
    ensures
        match closed_function(
            tys(parameters@),
            return_type@,
            environment@,
            (effect_tys(effects.effects@), effects.extension),
            cache@,
        ) {
            None => r is None,
            Some(t) => r is Some && r->0@ == t,
        },
{
    let ghost ps = tys(parameters@);
    let ghost es = effect_tys(effects.effects@);
    // The extension is left out to see whether it occurs in the rest of the type.
    let extension = effects.extension;
    let closed = Type::Effects(EffectSet { effects: effects.effects, extension: None });
    assert(closed@ == Ty::Effects(es, None));
    let function = FunctionType {
        parameters,
        return_type: Box::new(return_type),
        environment: Box::new(environment),
        effects: Box::new(closed),
        has_varargs: false,
    };
    assert(function@ == function_ty(ps, return_type@, environment@, Ty::Effects(es, None)));
    match extension {
        None => Some(Type::Function(function)),
        Some(extension) => {
            let none = UnificationBindings::empty();
            let found = occurs_in_function(
                extension,
                cache.current_level,
                &function,
                &none,
                RECURSION_LIMIT,
                cache,
            )?;
            if found.occurs {
                let effects = match *function.effects {
                    Type::Effects(set) => set.effects,
                    _ => Vec::new(),
                };
                let open = Type::Effects(EffectSet { effects, extension: Some(extension) });
                assert(open@ == Ty::Effects(es, Some(extension)));
                Some(
                    Type::Function(
                        FunctionType {
                            parameters: function.parameters,
                            return_type: function.return_type,
                            environment: function.environment,
                            effects: Box::new(open),
                            has_varargs: false,
                        },
                    ),
                )
            } else {
                Some(Type::Function(function))
            }
        },
    }
}

impl<A: Expression> Expression for Lambda<A> {
    fn place(&self) -> (r: Place) {
        Place::Temporary(self.location)
    }

    fn as_lambda(&self) -> (r: Option<(&Vec<Pattern>, Option<&Type>)>) {
        Some((&self.args, self.body.get_type()))
    }
}

/// A call of a function.
#[derive(Debug)]
pub struct FunctionCall<A> {
    pub function: Box<A>,
    pub args: Vec<A>,
    pub location: Location,
    pub typ: Option<Type>,
}

impl<A: Node> Node for FunctionCall<A> {
    open spec fn tree(&self) -> Tree {
        Tree::FunctionCall {
            function: Box::new(self.function.tree()),
            args: trees(self.args@),
            location: self.location,
            typ: opt_ty(self.typ),
        }
    }
}

impl<A: Node> Locatable for FunctionCall<A> {
    fn locate(&self) -> (r: Location) {
        self.location
    }
}

impl<A: Node> Typed for FunctionCall<A> {
    fn get_type(&self) -> (r: Option<&Type>) {
        self.typ.as_ref()
    }

    fn set_type(&mut self, typ: Type) {
        self.typ = Some(typ);
    }
}

/// What inferring the first `n` arguments comes to: the arguments, their types, the result of the
/// call so far and the cache.
pub open spec fn infer_arguments<A: Inferable>(
    n: nat,
    args: Seq<Tree>,
    f: Typing,
    c: Cache,
) -> Option<(Seq<Tree>, Seq<Ty>, Typing, Cache)>
    decreases n,
{
    if n == 0 {
        Some((Seq::empty(), Seq::empty(), f, c))
    } else {
        match infer_arguments::<A>((n - 1) as nat, args, f, c) {
            None => None,
            Some((front, types, joint, c1)) => match infer_and_combine::<A>(
                args[n - 1],
                joint,
                c1,
            ) {
                None => None,
                Some((last, joint2, own, c2)) => Some(
                    (front.push(last), types.push(own.typ), joint2, c2),
                ),
            },
        }
    }
}

proof fn lemma_infer_arguments_none<A: Inferable>(
    n: nat,
    m: nat,
    args: Seq<Tree>,
    f: Typing,
    c: Cache,
)
    requires
        n <= m,
        infer_arguments::<A>(n, args, f, c) is None,
    ensures
        infer_arguments::<A>(m, args, f, c) is None,
    decreases m,
{
    if n < m {
        lemma_infer_arguments_none::<A>(n, (m - 1) as nat, args, f, c);
    }
}

/// The locations of the trees.
pub open spec fn locations(ts: Seq<Tree>) -> Seq<Location> {
    Seq::new(ts.len(), |i: int| ts[i].location_of())
}

/// What applying a function to arguments of the given types makes of the cache: the type of the
/// result and the cache. What is called has to be a function of such arguments, and its effects
/// are among those of the call.
pub open spec fn applied_to(
    f: Typing,
    types: Seq<Ty>,
    argument_locations: Seq<Location>,
    location: Location,
    c: Cache,
) -> Option<(Ty, Cache)> {
    let level = c.current_level;
    let c1 = c.fresh(level);
    let c2 = c1.fresh(level);
    let c3 = c2.fresh(level);
    let return_type = Ty::Variable(c.next_id());
    let effects = Ty::Variable(c1.next_id());
    let call = function_ty(types, return_type, Ty::Variable(c2.next_id()), effects);
    let called = match fresh_unification(call, f.typ, c3) {
        None => None,
        Some(step) => if step.ok {
            Some(step.state.cache.perform(step.state.solution))
        } else {
            call_reported(
                location,
                argument_locations,
                f.typ,
                call,
                mismatch(
                    location,
                    Reason::CalledValueIsNotAFunction,
                    call,
                    f.typ,
                    step.state.cache,
                ),
                step.state.cache,
            )
        },
    };
    match called {
        None => None,
        Some(c4) => match after_unify(
            effects,
            Ty::Effects(f.effects.0, f.effects.1),
            location,
            Reason::NeverShown,
            c4,
        ) {
            None => None,
            Some(c5) => Some((return_type, c5)),
        },
    }
}

impl<A: Expression> Inferable for FunctionCall<A> {
    /// ```text
    ///  c |- f : t2 -> t can es | es    c |- x : t2 | es
    /// --------------------------------------------------
    ///                c |- f x : t | es
    /// ```
    open spec fn rule(t: Tree, c: Cache) -> Option<Outcome> {
        match t {
            Tree::FunctionCall { function, args, location, typ } => match inferred::<A>(
                *function,
                c,
            ) {
                None => None,
                Some(o) => match infer_arguments::<A>(args.len(), args, o.result, o.cache) {
                    None => None,
                    Some((args1, types, joint, c1)) => match applied_to(
                        joint,
                        types,
                        locations(args1),
                        location,
                        c1,
                    ) {
                        None => None,
                        Some((return_type, cache)) => Some(
                            Outcome {
                                tree: Tree::FunctionCall {
                                    function: Box::new(o.tree),
                                    args: args1,
                                    location,
                                    typ,
                                },
                                result: joint.with_type(return_type),
                                cache,
                            },
                        ),
                    },
                },
            },
            _ => None,
        }
    }

    fn infer_impl(&mut self, cache: &mut ModuleCache) -> (r: Option<TypeResult>) {
        let ghost ts = trees(self.args@);
        let n: usize = self.args.len();
        assert(ts.len() == n);
        let mut f = infer(&mut *self.function, cache)?;
        let ghost f0 = f@;
        let ghost c0 = cache@;
        let ghost function1 = self.function.tree();
        let mut parameters: Vec<Type> = Vec::new();
        let mut argument_locations: Vec<Location> = Vec::new();
        let mut i: usize = 0;
        proof {
            assert(trees(self.args@).take(0) =~= Seq::empty());
            assert(tys(parameters@) =~= Seq::empty());
            assert(argument_locations@ =~= locations(trees(self.args@)).take(0));
        }
        while i < n
            invariant
                i <= n,
                n == self.args.len(),
                n == ts.len(),
                ts == trees(old(self).args@),
                self.location == old(self).location,
                opt_ty(self.typ) == opt_ty(old(self).typ),
                self.function.tree() == function1,
                inferred::<A>(old(self).function.tree(), old(cache)@) == Some(
                    (Outcome { tree: function1, result: f0, cache: c0 }),
                ),
                forall|j: int| i <= j < n ==> (#[trigger] self.args@[j]).tree() == ts[j],
                argument_locations@ == locations(trees(self.args@)).take(i as int),
                infer_arguments::<A>(i as nat, ts, f0, c0) == Some(
                    (trees(self.args@).take(i as int), tys(parameters@), f@, cache@),
                ),
            decreases n - i,
        {
            let ghost before = trees(self.args@);
            let ghost types = tys(parameters@);
            assert(self.args@[i as int].tree() == ts[i as int]);
            let arg = &mut self.args[i];
            let done = infer(arg, cache);
            let mut own = match done {
                Some(own) => own,
                None => {
                    proof {
                        lemma_infer_arguments_none::<A>((i + 1) as nat, ts.len(), ts, f0, c0);
                    }
                    return None;
                },
            };
            let combined = f.combine(&mut own, cache);
            if combined.is_none() {
                proof {
                    lemma_infer_arguments_none::<A>((i + 1) as nat, ts.len(), ts, f0, c0);
                }
                return None;
            }
            argument_locations.push(self.args[i].locate());
            let ghost t = own.typ@;
            parameters.push(own.typ);
            proof {
                assert(tys(parameters@) =~= types.push(t));
                assert(trees(self.args@).take(i + 1) =~= before.take(i as int).push(
                    self.args@[i as int].tree(),
                ));
                assert(argument_locations@ =~= locations(trees(self.args@)).take(i + 1));
            }
            i += 1;
        }
        proof {
            assert(trees(self.args@).take(i as int) =~= trees(self.args@));
            assert(locations(trees(self.args@)).take(i as int) =~= locations(trees(self.args@)));
        }
        let return_type = apply_function(
            &f,
            parameters,
            &argument_locations,
            self.location,
            cache,
        )?;
        Some(f.with_type(return_type))
    }
}

/// Applies a function to arguments of the given types. Gives the type of the result.
fn apply_function(
    f: &TypeResult,
    parameters: Vec<Type>,
    argument_locations: &Vec<Location>,
    location: Location,
    cache: &mut ModuleCache,
) -> (r: Option<Type>)
    ensures
        match applied_to(f@, tys(parameters@), argument_locations@, location, old(cache)@) {
            None => r is None,
            Some((t, c)) => r is Some && r->0@ == t && final(cache)@ == c,
        },
{
    let ghost ps = tys(parameters@);
    let return_type = next_type_variable(cache);
    let effects_var = next_type_variable_id(cache);
    let environment = next_type_variable(cache);
    let effects = Type::TypeVariable(effects_var);
    let ghost parts = (return_type@, environment@, effects@);
    let result_type = return_type.clone();
    let new_function = Type::Function(
        FunctionType {
            parameters,
            return_type: Box::new(return_type),
            environment: Box::new(environment),
            effects: Box::new(effects),
            has_varargs: false,
        },
    );
    assert(new_function@ == function_ty(ps, parts.0, parts.1, parts.2));
    // Where the function's type is known, errors are reported argument by argument.
    match try_unify_at(
        &new_function,
        &f.typ,
        location,
        cache,
        TypeErrorKind::CalledValueIsNotAFunction,
    )? {
        Ok(bindings) => {
            bindings.perform(cache);
        },
        Err(error) => {
            issue_argument_types_error(
                location,
                argument_locations,
                f.typ.clone(),
                new_function,
                error,
                cache,
            )?;
        },
    }
    // The effects of evaluating the function and its arguments are those of its body too.
    let expected = Type::Effects(f.effects.clone());
    assert(expected@ == Ty::Effects(f@.effects.0, f@.effects.1));
    unify_or_report(
        &Type::TypeVariable(effects_var),
        &expected,
        location,
        cache,
        TypeErrorKind::NeverShown,
    )?;
    Some(result_type)
}

impl<A: Expression> Expression for FunctionCall<A> {
    fn place(&self) -> (r: Place) {
        Place::Temporary(self.location)
    }

    fn as_lambda(&self) -> (r: Option<(&Vec<Pattern>, Option<&Type>)>) {
        None
    }
}

} // verus!
