//! Plain types, which are built from constructors and variables alone, and substitutions: what
//! unification of such types comes to, as solving an equation between finite types.

use crate::cache::Binding;
use crate::types::{Ty, TypeVariableId};
use crate::unify::State;
use vstd::prelude::*;

verus! {

/// A finite type for each variable.
pub type Substitution = spec_fn(TypeVariableId) -> Ty;

/// Whether the type is built from primitive and user-defined types, functions without varargs,
/// references and applications alone, and all its variables are among the first `n`. There are no
/// rows of fields, no rows of effects, no named generics and no tags in it.
pub open spec fn is_plain(t: Ty, n: nat) -> bool
    decreases t,
{
    match t {
        Ty::Primitive(_) => true,
        Ty::UserDefined(_) => true,
        Ty::Variable(v) => v.0 < n,
        Ty::Function { parameters, return_type, environment, effects, has_varargs } => {
            &&& !has_varargs
            &&& forall|i: int| 0 <= i < parameters.len() ==> is_plain(#[trigger] parameters[i], n)
            &&& is_plain(*return_type, n)
            &&& is_plain(*environment, n)
            &&& is_plain(*effects, n)
        },
        Ty::Application(constructor, args) => {
            &&& is_plain(*constructor, n)
            &&& forall|i: int| 0 <= i < args.len() ==> is_plain(#[trigger] args[i], n)
        },
        Ty::Ref { sharedness, mutability, lifetime } => {
            &&& is_plain(*sharedness, n)
            &&& is_plain(*mutability, n)
            &&& is_plain(*lifetime, n)
        },
        _ => false,
    }
}

/// Whether all the types are plain.
pub open spec fn all_plain(ts: Seq<Ty>, n: nat) -> bool {
    forall|i: int| 0 <= i < ts.len() ==> is_plain(#[trigger] ts[i], n)
}

/// How many variables there are.
pub open spec fn var_count(s: State) -> nat {
    s.cache.type_bindings.len()
}

/// Whether all that a variable is bound to, by the cache or the solution, is plain.
pub open spec fn is_plain_state(s: State) -> bool {
    forall|v: TypeVariableId|
        (#[trigger] s.binding_of(v)) matches Some(Binding::Bound(b)) ==> is_plain(b, var_count(s))
}

/// The type with each variable replaced as the substitution says.
pub open spec fn apply(f: Substitution, t: Ty) -> Ty
    decreases t,
{
    match t {
        Ty::Variable(v) => f(v),
        Ty::Function { parameters, return_type, environment, effects, has_varargs } => {
            Ty::Function {
                parameters: apply_all(f, parameters),
                return_type: Box::new(apply(f, *return_type)),
                environment: Box::new(apply(f, *environment)),
                effects: Box::new(apply(f, *effects)),
                has_varargs,
            }
        },
        Ty::Application(constructor, args) => Ty::Application(
            Box::new(apply(f, *constructor)),
            apply_all(f, args),
        ),
        Ty::Ref { sharedness, mutability, lifetime } => Ty::Ref {
            sharedness: Box::new(apply(f, *sharedness)),
            mutability: Box::new(apply(f, *mutability)),
            lifetime: Box::new(apply(f, *lifetime)),
        },
        _ => t,
    }
}

/// Each of the types with its variables replaced.
pub open spec fn apply_all(f: Substitution, ts: Seq<Ty>) -> Seq<Ty>
    decreases ts,
{
    if ts.len() == 0 {
        Seq::empty()
    } else {
        apply_all(f, ts.drop_last()).push(apply(f, ts.last()))
    }
}

/// Whether the substitution gives each bound variable what its binding comes to.
pub open spec fn respects(f: Substitution, s: State) -> bool {
    forall|v: TypeVariableId|
        (#[trigger] s.binding_of(v)) matches Some(Binding::Bound(b)) ==> f(v) == apply(f, b)
}

/// Whether the substitution makes the types equal.
pub open spec fn unifies(f: Substitution, a: Ty, b: Ty) -> bool {
    apply(f, a) == apply(f, b)
}

/// Whether the substitution makes the types of each pair equal.
pub open spec fn unifies_all(f: Substitution, xs: Seq<Ty>, ys: Seq<Ty>) -> bool {
    forall|i: int| 0 <= i < xs.len() && i < ys.len() ==> unifies(f, #[trigger] xs[i], ys[i])
}

/// Types are replaced one by one.
pub proof fn lemma_apply_all(f: Substitution, ts: Seq<Ty>)
    ensures
        apply_all(f, ts).len() == ts.len(),
        forall|i: int| 0 <= i < ts.len() ==> #[trigger] apply_all(f, ts)[i] == apply(f, ts[i]),
    decreases ts.len(),
{
    if ts.len() > 0 {
        lemma_apply_all(f, ts.drop_last());
        let before = apply_all(f, ts.drop_last());
        assert forall|i: int| 0 <= i < ts.len() implies #[trigger] apply_all(f, ts)[i] == apply(
            f,
            ts[i],
        ) by {
            if i < ts.len() - 1 {
                assert(before[i] == apply(f, ts.drop_last()[i]));
            }
        }
    }
}

/// The number of nodes of a type.
pub open spec fn size(t: Ty) -> nat
    decreases t,
{
    match t {
        Ty::Function { parameters, return_type, environment, effects, .. } => {
            1 + size_of_all(parameters) + size(*return_type) + size(*environment) + size(*effects)
        },
        Ty::Application(constructor, args) => 1 + size(*constructor) + size_of_all(args),
        Ty::Ref { sharedness, mutability, lifetime } => {
            1 + size(*sharedness) + size(*mutability) + size(*lifetime)
        },
        _ => 1,
    }
}

/// The number of nodes of all the types.
pub open spec fn size_of_all(ts: Seq<Ty>) -> nat
    decreases ts,
{
    if ts.len() == 0 {
        0
    } else {
        size_of_all(ts.drop_last()) + size(ts.last())
    }
}

/// No type is larger than all of them together.
pub proof fn lemma_size_of_all(ts: Seq<Ty>, i: int)
    requires
        0 <= i < ts.len(),
    ensures
        size(ts[i]) <= size_of_all(ts),
    decreases ts.len(),
{
    if i < ts.len() - 1 {
        lemma_size_of_all(ts.drop_last(), i);
        assert(ts.drop_last()[i] == ts[i]);
    }
}

} // verus!
