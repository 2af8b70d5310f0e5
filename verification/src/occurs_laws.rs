//! What the occurs check decides: it finds a variable exactly where the variable can be reached,
//! and lists every other variable that can be reached and stands at too high a level.

use crate::bindings::lower_levels;
use crate::cache::Binding;
use crate::occurs::{occurs_in, occurs_in_seq, occurs_in_variable, Found};
use crate::resolve::binding_of;
use crate::types::{LetBindingLevel, Ty, TypeVariableId};
use vstd::prelude::*;

verus! {

/// Whether the unbound variable `v` can be reached from the type in fewer than `n` steps, into a
/// part of a type or from a variable to its binding.
pub open spec fn reaches(
    n: nat,
    t: Ty,
    v: TypeVariableId,
    types: Map<usize, Ty>,
    vars: Seq<Binding>,
) -> bool
    decreases n, 0nat,
{
    if n == 0 {
        false
    } else {
        let m = (n - 1) as nat;
        match t {
            Ty::Primitive(_) => false,
            Ty::UserDefined(_) => false,
            Ty::Tag(_) => false,
            Ty::Variable(w) => reaches_through(m, w, v, types, vars),
            Ty::NamedGeneric(w, _) => reaches_through(m, w, v, types, vars),
            Ty::Function { parameters, return_type, environment, effects, has_varargs } => {
                ||| reaches(m, *return_type, v, types, vars)
                ||| reaches(m, *environment, v, types, vars)
                ||| reaches(m, *effects, v, types, vars)
                ||| exists|i: int|
                    0 <= i < parameters.len() && reaches(
                        m,
                        #[trigger] parameters[i],
                        v,
                        types,
                        vars,
                    )
            },
            Ty::Application(constructor, args) => {
                ||| reaches(m, *constructor, v, types, vars)
                ||| exists|i: int|
                    0 <= i < args.len() && reaches(m, #[trigger] args[i], v, types, vars)
            },
            Ty::Ref { sharedness, mutability, lifetime } => {
                ||| reaches(m, *sharedness, v, types, vars)
                ||| reaches(m, *mutability, v, types, vars)
                ||| reaches(m, *lifetime, v, types, vars)
            },
            Ty::Struct(_, fields, rest) => {
                ||| reaches_through(m, rest, v, types, vars)
                ||| exists|i: int|
                    0 <= i < fields.len() && reaches(m, #[trigger] fields[i], v, types, vars)
            },
            Ty::Effect(_, args) => exists|i: int|
                0 <= i < args.len() && reaches(m, #[trigger] args[i], v, types, vars),
            Ty::Effects(effects, extension) => {
                ||| exists|i: int|
                    0 <= i < effects.len() && reaches(m, #[trigger] effects[i], v, types, vars)
                ||| (extension matches Some(w) && reaches_through(m, w, v, types, vars))
            },
        }
    }
}

/// Whether the unbound variable `v` is `w`, or can be reached from the binding of `w`.
pub open spec fn reaches_through(
    n: nat,
    w: TypeVariableId,
    v: TypeVariableId,
    types: Map<usize, Ty>,
    vars: Seq<Binding>,
) -> bool
    decreases n, 1nat,
{
    match binding_of(w, types, vars) {
        None => false,
        Some(Binding::Bound(b)) => reaches(n, b, v, types, vars),
        Some(Binding::Unbound(_, _)) => w == v,
    }
}

/// The variables that a search lists.
pub open spec fn levels_in(found: Option<Found>) -> Seq<(TypeVariableId, LetBindingLevel)> {
    match found {
        Some((_, levels)) => levels,
        None => Seq::empty(),
    }
}

/// Whether `v` is not the variable searched for, and is listed if its level is above `level`.
pub open spec fn listed(
    id: TypeVariableId,
    level: LetBindingLevel,
    v: TypeVariableId,
    levels: Seq<(TypeVariableId, LetBindingLevel)>,
    types: Map<usize, Ty>,
    vars: Seq<Binding>,
) -> bool {
    &&& v != id
    &&& binding_of(v, types, vars) matches Some(Binding::Unbound(own, _)) && (level.0 < own.0
        ==> levels.contains((v, level)))
}

/// A variable that the occurs check finds can be reached.
pub proof fn law_occurs_reaches(
    fuel: nat,
    id: TypeVariableId,
    level: LetBindingLevel,
    t: Ty,
    types: Map<usize, Ty>,
    vars: Seq<Binding>,
)
    requires
        occurs_in(fuel, id, level, t, types, vars) matches Some((true, _)),
    ensures
        reaches(fuel, t, id, types, vars),
    decreases fuel, 0nat, 0nat,
{
    let f = (fuel - 1) as nat;
    match t {
        Ty::Variable(v) => lemma_variable_reaches(f, id, level, v, types, vars),
        Ty::NamedGeneric(v, _) => lemma_variable_reaches(f, id, level, v, types, vars),
        Ty::Function { parameters, return_type, environment, effects, has_varargs } => {
            if occurs_in(f, id, level, *return_type, types, vars) matches Some((true, _)) {
                law_occurs_reaches(f, id, level, *return_type, types, vars);
            } else if occurs_in(f, id, level, *environment, types, vars) matches Some((true, _)) {
                law_occurs_reaches(f, id, level, *environment, types, vars);
            } else if occurs_in(f, id, level, *effects, types, vars) matches Some((true, _)) {
                law_occurs_reaches(f, id, level, *effects, types, vars);
            } else {
                lemma_seq_reaches(f, id, level, parameters, types, vars);
            }
        },
        Ty::Application(constructor, args) => {
            if occurs_in(f, id, level, *constructor, types, vars) matches Some((true, _)) {
                law_occurs_reaches(f, id, level, *constructor, types, vars);
            } else {
                lemma_seq_reaches(f, id, level, args, types, vars);
            }
        },
        Ty::Ref { sharedness, mutability, lifetime } => {
            if occurs_in(f, id, level, *mutability, types, vars) matches Some((true, _)) {
                law_occurs_reaches(f, id, level, *mutability, types, vars);
            } else if occurs_in(f, id, level, *sharedness, types, vars) matches Some((true, _)) {
                law_occurs_reaches(f, id, level, *sharedness, types, vars);
            } else {
                law_occurs_reaches(f, id, level, *lifetime, types, vars);
            }
        },
        Ty::Struct(_, fields, rest) => {
            if occurs_in_variable(f, id, level, rest, types, vars) matches Some((true, _)) {
                lemma_variable_reaches(f, id, level, rest, types, vars);
            } else {
                lemma_seq_reaches(f, id, level, fields, types, vars);
            }
        },
        Ty::Effect(_, args) => lemma_seq_reaches(f, id, level, args, types, vars),
        Ty::Effects(effects, extension) => {
            if occurs_in_seq(f, id, level, effects, types, vars) matches Some((true, _)) {
                lemma_seq_reaches(f, id, level, effects, types, vars);
            } else if let Some(v) = extension {
                lemma_variable_reaches(f, id, level, v, types, vars);
            }
        },
        _ => {},
    }
}

proof fn lemma_variable_reaches(
    fuel: nat,
    id: TypeVariableId,
    level: LetBindingLevel,
    v: TypeVariableId,
    types: Map<usize, Ty>,
    vars: Seq<Binding>,
)
    requires
        occurs_in_variable(fuel, id, level, v, types, vars) matches Some((true, _)),
    ensures
        reaches_through(fuel, v, id, types, vars),
    decreases fuel, 1nat, 0nat,
{
    if let Some(Binding::Bound(b)) = binding_of(v, types, vars) {
        law_occurs_reaches(fuel, id, level, b, types, vars);
    }
}

proof fn lemma_seq_reaches(
    fuel: nat,
    id: TypeVariableId,
    level: LetBindingLevel,
    ts: Seq<Ty>,
    types: Map<usize, Ty>,
    vars: Seq<Binding>,
)
    requires
        occurs_in_seq(fuel, id, level, ts, types, vars) matches Some((true, _)),
    ensures
        exists|i: int| 0 <= i < ts.len() && reaches(fuel, #[trigger] ts[i], id, types, vars),
    decreases fuel, 1nat, ts.len(),
{
    if occurs_in(fuel, id, level, ts[0], types, vars) matches Some((true, _)) {
        law_occurs_reaches(fuel, id, level, ts[0], types, vars);
    } else {
        lemma_seq_reaches(fuel, id, level, ts.skip(1), types, vars);
        let i = choose|i: int|
            0 <= i < ts.skip(1).len() && reaches(
                fuel,
                #[trigger] ts.skip(1)[i],
                id,
                types,
                vars,
            );
        assert(ts.skip(1)[i] == ts[i + 1]);
    }
}

/// Where the occurs check finds nothing, the variable cannot be reached, and each variable that
/// can be reached is listed if its level has to be lowered.
pub proof fn law_occurs_lists(
    fuel: nat,
    id: TypeVariableId,
    level: LetBindingLevel,
    t: Ty,
    types: Map<usize, Ty>,
    vars: Seq<Binding>,
    n: nat,
    v: TypeVariableId,
)
    requires
        occurs_in(fuel, id, level, t, types, vars) matches Some((false, _)),
        reaches(n, t, v, types, vars),
    ensures
        listed(id, level, v, levels_in(occurs_in(fuel, id, level, t, types, vars)), types, vars),
    decreases fuel, 0nat, 0nat,
{
    let f = (fuel - 1) as nat;
    let m = (n - 1) as nat;
    match t {
        Ty::Variable(w) => lemma_variable_lists(f, id, level, w, types, vars, m, v),
        Ty::NamedGeneric(w, _) => lemma_variable_lists(f, id, level, w, types, vars, m, v),
        Ty::Function { parameters, return_type, environment, effects, has_varargs } => {
            let r = levels_in(occurs_in(f, id, level, *return_type, types, vars));
            let e = levels_in(occurs_in(f, id, level, *environment, types, vars));
            let x = levels_in(occurs_in(f, id, level, *effects, types, vars));
            let p = levels_in(occurs_in_seq(f, id, level, parameters, types, vars));
            lemma_contains_concat(r, e);
            lemma_contains_concat(r + e, x);
            lemma_contains_concat(r + e + x, p);
            if reaches(m, *return_type, v, types, vars) {
                law_occurs_lists(f, id, level, *return_type, types, vars, m, v);
            } else if reaches(m, *environment, v, types, vars) {
                law_occurs_lists(f, id, level, *environment, types, vars, m, v);
            } else if reaches(m, *effects, v, types, vars) {
                law_occurs_lists(f, id, level, *effects, types, vars, m, v);
            } else {
                lemma_seq_lists(f, id, level, parameters, types, vars, m, v);
            }
        },
        Ty::Application(constructor, args) => {
            let c = levels_in(occurs_in(f, id, level, *constructor, types, vars));
            let a = levels_in(occurs_in_seq(f, id, level, args, types, vars));
            lemma_contains_concat(c, a);
            if reaches(m, *constructor, v, types, vars) {
                law_occurs_lists(f, id, level, *constructor, types, vars, m, v);
            } else {
                lemma_seq_lists(f, id, level, args, types, vars, m, v);
            }
        },
        Ty::Ref { sharedness, mutability, lifetime } => {
            let a = levels_in(occurs_in(f, id, level, *mutability, types, vars));
            let b = levels_in(occurs_in(f, id, level, *sharedness, types, vars));
            let c = levels_in(occurs_in(f, id, level, *lifetime, types, vars));
            lemma_contains_concat(a, b);
            lemma_contains_concat(a + b, c);
            if reaches(m, *mutability, v, types, vars) {
                law_occurs_lists(f, id, level, *mutability, types, vars, m, v);
            } else if reaches(m, *sharedness, v, types, vars) {
                law_occurs_lists(f, id, level, *sharedness, types, vars, m, v);
            } else {
                law_occurs_lists(f, id, level, *lifetime, types, vars, m, v);
            }
        },
        Ty::Struct(_, fields, rest) => {
            let a = levels_in(occurs_in_variable(f, id, level, rest, types, vars));
            let b = levels_in(occurs_in_seq(f, id, level, fields, types, vars));
            lemma_contains_concat(a, b);
            if reaches_through(m, rest, v, types, vars) {
                lemma_variable_lists(f, id, level, rest, types, vars, m, v);
            } else {
                lemma_seq_lists(f, id, level, fields, types, vars, m, v);
            }
        },
        Ty::Effect(_, args) => lemma_seq_lists(f, id, level, args, types, vars, m, v),
        Ty::Effects(effects, extension) => {
            let a = levels_in(occurs_in_seq(f, id, level, effects, types, vars));
            if let Some(w) = extension {
                let b = levels_in(occurs_in_variable(f, id, level, w, types, vars));
                lemma_contains_concat(a, b);
                if reaches_through(m, w, v, types, vars) {
                    lemma_variable_lists(f, id, level, w, types, vars, m, v);
                } else {
                    lemma_seq_lists(f, id, level, effects, types, vars, m, v);
                }
            } else {
                lemma_seq_lists(f, id, level, effects, types, vars, m, v);
            }
        },
        _ => {},
    }
}

proof fn lemma_contains_concat<A>(a: Seq<A>, b: Seq<A>)
    ensures
        forall|x: A| a.contains(x) ==> #[trigger] (a + b).contains(x),
        forall|x: A| b.contains(x) ==> #[trigger] (a + b).contains(x),
{
    assert forall|x: A| a.contains(x) implies #[trigger] (a + b).contains(x) by {
        let i = choose|i: int| 0 <= i < a.len() && a[i] == x;
        assert((a + b)[i] == x);
    }
    assert forall|x: A| b.contains(x) implies #[trigger] (a + b).contains(x) by {
        let i = choose|i: int| 0 <= i < b.len() && b[i] == x;
        assert((a + b)[a.len() + i] == x);
    }
}

proof fn lemma_variable_lists(
    fuel: nat,
    id: TypeVariableId,
    level: LetBindingLevel,
    w: TypeVariableId,
    types: Map<usize, Ty>,
    vars: Seq<Binding>,
    n: nat,
    v: TypeVariableId,
)
    requires
        occurs_in_variable(fuel, id, level, w, types, vars) matches Some((false, _)),
        reaches_through(n, w, v, types, vars),
    ensures
        listed(
            id,
            level,
            v,
            levels_in(occurs_in_variable(fuel, id, level, w, types, vars)),
            types,
            vars,
        ),
    decreases fuel, 1nat, 0nat,
{
    match binding_of(w, types, vars) {
        Some(Binding::Bound(b)) => law_occurs_lists(fuel, id, level, b, types, vars, n, v),
        Some(Binding::Unbound(own, _)) => {
            if level.0 < own.0 {
                assert(seq![(w, level)][0] == (v, level));
            }
        },
        None => {},
    }
}

proof fn lemma_seq_lists(
    fuel: nat,
    id: TypeVariableId,
    level: LetBindingLevel,
    ts: Seq<Ty>,
    types: Map<usize, Ty>,
    vars: Seq<Binding>,
    n: nat,
    v: TypeVariableId,
)
    requires
        occurs_in_seq(fuel, id, level, ts, types, vars) matches Some((false, _)),
        exists|i: int| 0 <= i < ts.len() && reaches(n, #[trigger] ts[i], v, types, vars),
    ensures
        listed(
            id,
            level,
            v,
            levels_in(occurs_in_seq(fuel, id, level, ts, types, vars)),
            types,
            vars,
        ),
    decreases fuel, 1nat, ts.len(),
{
    let i = choose|i: int| 0 <= i < ts.len() && reaches(n, #[trigger] ts[i], v, types, vars);
    let first = levels_in(occurs_in(fuel, id, level, ts[0], types, vars));
    let rest = levels_in(occurs_in_seq(fuel, id, level, ts.skip(1), types, vars));
    lemma_contains_concat(first, rest);
    if i == 0 {
        law_occurs_lists(fuel, id, level, ts[0], types, vars, n, v);
    } else {
        assert(ts.skip(1)[i - 1] == ts[i]);
        lemma_seq_lists(fuel, id, level, ts.skip(1), types, vars, n, v);
    }
}

/// Every variable that the occurs check lists is an unbound one above the level, and is listed to
/// be lowered to it.
pub proof fn law_listed_is_higher(
    fuel: nat,
    id: TypeVariableId,
    level: LetBindingLevel,
    t: Ty,
    types: Map<usize, Ty>,
    vars: Seq<Binding>,
)
    requires
        occurs_in(fuel, id, level, t, types, vars) is Some,
    ensures
        all_higher(level, levels_in(occurs_in(fuel, id, level, t, types, vars)), types, vars),
    decreases fuel, 0nat, 0nat,
{
    let f = (fuel - 1) as nat;
    match t {
        Ty::Variable(v) => lemma_variable_is_higher(f, id, level, v, types, vars),
        Ty::NamedGeneric(v, _) => lemma_variable_is_higher(f, id, level, v, types, vars),
        Ty::Function { parameters, return_type, environment, effects, has_varargs } => {
            law_listed_is_higher(f, id, level, *return_type, types, vars);
            let a = occurs_in(f, id, level, *return_type, types, vars);
            let b = occurs_in(f, id, level, *environment, types, vars);
            let c = occurs_in(f, id, level, *effects, types, vars);
            if b is Some {
                law_listed_is_higher(f, id, level, *environment, types, vars);
            }
            if c is Some {
                law_listed_is_higher(f, id, level, *effects, types, vars);
            }
            if occurs_in_seq(f, id, level, parameters, types, vars) is Some {
                lemma_seq_is_higher(f, id, level, parameters, types, vars);
            }
        },
        Ty::Application(constructor, args) => {
            law_listed_is_higher(f, id, level, *constructor, types, vars);
            if occurs_in_seq(f, id, level, args, types, vars) is Some {
                lemma_seq_is_higher(f, id, level, args, types, vars);
            }
        },
        Ty::Ref { sharedness, mutability, lifetime } => {
            law_listed_is_higher(f, id, level, *mutability, types, vars);
            if occurs_in(f, id, level, *sharedness, types, vars) is Some {
                law_listed_is_higher(f, id, level, *sharedness, types, vars);
            }
            if occurs_in(f, id, level, *lifetime, types, vars) is Some {
                law_listed_is_higher(f, id, level, *lifetime, types, vars);
            }
        },
        Ty::Struct(_, fields, rest) => {
            lemma_variable_is_higher(f, id, level, rest, types, vars);
            if occurs_in_seq(f, id, level, fields, types, vars) is Some {
                lemma_seq_is_higher(f, id, level, fields, types, vars);
            }
        },
        Ty::Effect(_, args) => lemma_seq_is_higher(f, id, level, args, types, vars),
        Ty::Effects(effects, extension) => {
            lemma_seq_is_higher(f, id, level, effects, types, vars);
            if let Some(v) = extension {
                if occurs_in_variable(f, id, level, v, types, vars) is Some {
                    lemma_variable_is_higher(f, id, level, v, types, vars);
                }
            }
        },
        _ => {},
    }
}

/// Every entry is an unbound variable above the level, to be lowered to it.
pub open spec fn all_higher(
    level: LetBindingLevel,
    levels: Seq<(TypeVariableId, LetBindingLevel)>,
    types: Map<usize, Ty>,
    vars: Seq<Binding>,
) -> bool {
    forall|i: int|
        0 <= i < levels.len() ==> (#[trigger] levels[i]).1 == level && (binding_of(
            levels[i].0,
            types,
            vars,
        ) matches Some(Binding::Unbound(own, _)) && level.0 < own.0)
}

proof fn lemma_variable_is_higher(
    fuel: nat,
    id: TypeVariableId,
    level: LetBindingLevel,
    v: TypeVariableId,
    types: Map<usize, Ty>,
    vars: Seq<Binding>,
)
    requires
        occurs_in_variable(fuel, id, level, v, types, vars) is Some,
    ensures
        all_higher(
            level,
            levels_in(occurs_in_variable(fuel, id, level, v, types, vars)),
            types,
            vars,
        ),
    decreases fuel, 1nat, 0nat,
{
    if let Some(Binding::Bound(b)) = binding_of(v, types, vars) {
        law_listed_is_higher(fuel, id, level, b, types, vars);
    }
}

proof fn lemma_seq_is_higher(
    fuel: nat,
    id: TypeVariableId,
    level: LetBindingLevel,
    ts: Seq<Ty>,
    types: Map<usize, Ty>,
    vars: Seq<Binding>,
)
    requires
        occurs_in_seq(fuel, id, level, ts, types, vars) is Some,
    ensures
        all_higher(level, levels_in(occurs_in_seq(fuel, id, level, ts, types, vars)), types, vars),
    decreases fuel, 1nat, ts.len(),
{
    if ts.len() > 0 {
        law_listed_is_higher(fuel, id, level, ts[0], types, vars);
        if occurs_in_seq(fuel, id, level, ts.skip(1), types, vars) is Some {
            lemma_seq_is_higher(fuel, id, level, ts.skip(1), types, vars);
        }
    }
}

/// Lowering levels binds no variable, frees none and raises no level.
pub proof fn law_lowering_only_lowers(
    vars: Seq<Binding>,
    levels: Seq<(TypeVariableId, LetBindingLevel)>,
)
    requires
        forall|i: int| 0 <= i < levels.len() ==> (#[trigger] levels[i]).0.0 < vars.len(),
    ensures
        lower_levels(vars, levels).len() == vars.len(),
        forall|j: int|
            0 <= j < vars.len() ==> match vars[j] {
                Binding::Bound(t) => (#[trigger] lower_levels(vars, levels)[j]) == vars[j],
                Binding::Unbound(own, kind) => lower_levels(vars, levels)[j]
                    matches Binding::Unbound(now, kind2) && now.0 <= own.0 && kind2 == kind,
            },
    decreases levels.len(),
{
    if levels.len() > 0 {
        let front = levels.drop_last();
        assert forall|i: int| 0 <= i < front.len() implies (#[trigger] front[i]).0.0
            < vars.len() by {
            assert(front[i] == levels[i]);
        }
        law_lowering_only_lowers(vars, front);
        assert(levels[levels.len() - 1].0.0 < vars.len());
    }
}

/// A variable that is listed, and is unbound, ends at the level it is listed with or below.
pub proof fn law_lowering_reaches_level(
    vars: Seq<Binding>,
    levels: Seq<(TypeVariableId, LetBindingLevel)>,
    i: int,
)
    requires
        0 <= i < levels.len(),
        forall|j: int| 0 <= j < levels.len() ==> (#[trigger] levels[j]).0.0 < vars.len(),
    ensures
        lower_levels(vars, levels)[levels[i].0.0 as int] matches Binding::Unbound(now, _)
            ==> now.0 <= levels[i].1.0,
    decreases levels.len(),
{
    let front = levels.drop_last();
    assert forall|j: int| 0 <= j < front.len() implies (#[trigger] front[j]).0.0 < vars.len() by {
        assert(front[j] == levels[j]);
    }
    assert(levels[levels.len() - 1].0.0 < vars.len());
    law_lowering_only_lowers(vars, front);
    if i < levels.len() - 1 {
        law_lowering_reaches_level(vars, front, i);
        assert(front[i] == levels[i]);
    }
}

} // verus!
