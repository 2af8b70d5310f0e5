//! What replacing variables comes to: done once more it changes nothing, it is what the bindings it
//! returns say, no replaced variable is left, and renaming variables can be undone.

use crate::cache::{lookup, Binding, Cache};
use crate::contains::{holds_any, law_contains_reaches, law_reaches_contains};
use crate::instantiate::renaming;
use crate::occurs_laws::{reaches, reaches_through};
use crate::resolve::MAX_DEPTH;
use crate::subst::{
    bind, bind_seq, bind_variable, bound_type, replace, replace_seq, replace_variable,
};
use crate::subst_laws::{
    fits, grew_fresh, law_replace_all_is_fresh, law_replace_is_fresh,
    law_replaces_every_variable_of_all, lemma_inside_any_grows, lemma_inside_grows,
    lemma_replace_grows, lemma_replace_seq_grows, lemma_replace_variable_grows,
    lemma_replace_variable_is_fresh, only_variables,
};
use crate::types::{Ty, TypeVariableId};
use crate::typevar_laws::{inside, inside_any, inside_variable};
use vstd::prelude::*;

verus! {

/// Whether the bindings and the cache have all that earlier ones had.
pub open spec fn settled(types: Map<usize, Ty>, c: Cache, m: Map<usize, Ty>, z: Cache) -> bool {
    &&& forall|k: usize| #[trigger]
        types.contains_key(k) ==> m.contains_key(k) && m[k] == types[k]
    &&& c.type_bindings.len() <= z.type_bindings.len()
    &&& forall|i: int|
        0 <= i < c.type_bindings.len() ==> #[trigger] z.type_bindings[i] == c.type_bindings[i]
}

proof fn lemma_settled_before(
    types: Map<usize, Ty>,
    c: Cache,
    m1: Map<usize, Ty>,
    c1: Cache,
    m: Map<usize, Ty>,
    z: Cache,
)
    requires
        grew_fresh(types, c, m1, c1),
        settled(m1, c1, m, z),
    ensures
        settled(types, c, m, z),
{
    assert forall|k: usize| #[trigger] types.contains_key(k) implies m.contains_key(k) && m[k]
        == types[k] by {
        assert(m1.contains_key(k));
    }
    assert forall|i: int| 0 <= i < c.type_bindings.len() implies #[trigger] z.type_bindings[i]
        == c.type_bindings[i] by {
        assert(c1.type_bindings[i] == c.type_bindings[i]);
    }
}

/// Whether no named generic that the type itself holds is bound in the cache.
pub open spec fn generics_unbound(t: Ty, vars: Seq<Binding>) -> bool
    decreases t,
{
    match t {
        Ty::NamedGeneric(v, _) => !(lookup(vars, v) matches Some(Binding::Bound(_))),
        Ty::Function { parameters, return_type, environment, effects, has_varargs } => {
            &&& forall|i: int|
                0 <= i < parameters.len() ==> generics_unbound(#[trigger] parameters[i], vars)
            &&& generics_unbound(*return_type, vars)
            &&& generics_unbound(*environment, vars)
            &&& generics_unbound(*effects, vars)
        },
        Ty::Application(constructor, args) => {
            &&& generics_unbound(*constructor, vars)
            &&& forall|i: int| 0 <= i < args.len() ==> generics_unbound(#[trigger] args[i], vars)
        },
        Ty::Ref { sharedness, mutability, lifetime } => {
            &&& generics_unbound(*sharedness, vars)
            &&& generics_unbound(*mutability, vars)
            &&& generics_unbound(*lifetime, vars)
        },
        Ty::Struct(_, fields, _) => forall|i: int|
            0 <= i < fields.len() ==> generics_unbound(#[trigger] fields[i], vars),
        Ty::Effect(_, args) => forall|i: int|
            0 <= i < args.len() ==> generics_unbound(#[trigger] args[i], vars),
        Ty::Effects(effects, _) => forall|i: int|
            0 <= i < effects.len() ==> generics_unbound(#[trigger] effects[i], vars),
        _ => true,
    }
}

/// Whether no named generic in any of the types is bound in the cache.
pub open spec fn all_generics_unbound(ts: Seq<Ty>, vars: Seq<Binding>) -> bool {
    forall|i: int| 0 <= i < ts.len() ==> generics_unbound(#[trigger] ts[i], vars)
}

/// Whether no named generic in a type that the cache binds a variable to is bound itself.
pub open spec fn cached_generics_unbound(vars: Seq<Binding>) -> bool {
    forall|i: int|
        0 <= i < vars.len() && (#[trigger] vars[i]) is Bound ==> generics_unbound(
            vars[i]->Bound_0,
            vars,
        )
}

/// Whether all the bindings are of variables that the cache does not bind.
pub open spec fn keys_unbound(types: Map<usize, Ty>, vars: Seq<Binding>) -> bool {
    forall|k: usize| #[trigger]
        types.contains_key(k) ==> !(lookup(vars, TypeVariableId(k)) matches Some(
            Binding::Bound(_),
        ))
}

/// Whether replacing with the bindings gives what was replaced before and makes nothing new, and
/// so does binding where there are no bound generics.
pub open spec fn comes_to(
    depth: nat,
    t: Ty,
    r: Ty,
    m: Map<usize, Ty>,
    z: Cache,
) -> bool {
    &&& replace(depth, t, m, z) == Some((r, m, z))
    &&& keys_unbound(m, z.type_bindings) && cached_generics_unbound(z.type_bindings)
        && generics_unbound(t, z.type_bindings) ==> bind(depth, t, m, z.type_bindings) == Some(r)
}

/// The same for several types.
pub open spec fn all_come_to(
    depth: nat,
    ts: Seq<Ty>,
    rs: Seq<Ty>,
    m: Map<usize, Ty>,
    z: Cache,
) -> bool {
    &&& replace_seq(depth, ts, m, z) == Some((rs, m, z))
    &&& keys_unbound(m, z.type_bindings) && cached_generics_unbound(z.type_bindings)
        && all_generics_unbound(ts, z.type_bindings) ==> bind_seq(depth, ts, m, z.type_bindings)
        == Some(rs)
}

/// The same for a variable.
pub open spec fn variable_comes_to(
    depth: nat,
    v: TypeVariableId,
    r: Ty,
    m: Map<usize, Ty>,
    z: Cache,
) -> bool {
    &&& replace_variable(depth, v, m, z) == Some((r, m, z))
    &&& keys_unbound(m, z.type_bindings) && cached_generics_unbound(z.type_bindings)
        ==> bind_variable(depth, v, m, z.type_bindings) == Some(r)
}

proof fn lemma_comes_to(
    depth: nat,
    t: Ty,
    types: Map<usize, Ty>,
    c: Cache,
    m: Map<usize, Ty>,
    z: Cache,
)
    requires
        replace(depth, t, types, c) matches Some(done) && fits(done) && settled(
            done.1,
            done.2,
            m,
            z,
        ),
    ensures
        comes_to(depth, t, (replace(depth, t, types, c)->0).0, m, z),
    decreases depth, 0nat, 0nat,
{
    let d = (depth - 1) as nat;
    match t {
        Ty::Variable(id) => lemma_variable_comes_to(d, id, types, c, m, z),
        Ty::NamedGeneric(id, _) => {
            lemma_variable_comes_to(d, id, types, c, m, z);
            let (x, m1, c1) = replace_variable(d, id, types, c)->0;
            lemma_replace_variable_is_fresh(d, id, types, c);
            lemma_settled_before(types, c, m1, c1, m, z);
            if lookup(c.type_bindings, id) matches Some(Binding::Unbound(_, _)) {
                assert(m1.contains_key(id.0));
            }
        },
        Ty::Function { parameters, return_type, environment, effects, .. } => {
            let (_, m1, c1) = replace_seq(d, parameters, types, c)->0;
            let (_, m2, c2) = replace(d, *return_type, m1, c1)->0;
            let (_, m3, c3) = replace(d, *environment, m2, c2)->0;
            let (_, m4, c4) = replace(d, *effects, m3, c3)->0;
            lemma_replace_grows(d, *effects, m3, c3);
            lemma_replace_grows(d, *environment, m2, c2);
            lemma_replace_grows(d, *return_type, m1, c1);
            law_replace_is_fresh(d, *return_type, m1, c1);
            law_replace_is_fresh(d, *environment, m2, c2);
            law_replace_is_fresh(d, *effects, m3, c3);
            lemma_settled_before(m3, c3, m4, c4, m, z);
            lemma_settled_before(m2, c2, m3, c3, m, z);
            lemma_settled_before(m1, c1, m2, c2, m, z);
            lemma_all_come_to(d, parameters, types, c, m, z);
            lemma_comes_to(d, *return_type, m1, c1, m, z);
            lemma_comes_to(d, *environment, m2, c2, m, z);
            lemma_comes_to(d, *effects, m3, c3, m, z);
        },
        Ty::Ref { sharedness, mutability, lifetime } => {
            let (_, m1, c1) = replace(d, *mutability, types, c)->0;
            let (_, m2, c2) = replace(d, *sharedness, m1, c1)->0;
            let (_, m3, c3) = replace(d, *lifetime, m2, c2)->0;
            lemma_replace_grows(d, *lifetime, m2, c2);
            lemma_replace_grows(d, *sharedness, m1, c1);
            law_replace_is_fresh(d, *sharedness, m1, c1);
            law_replace_is_fresh(d, *lifetime, m2, c2);
            lemma_settled_before(m2, c2, m3, c3, m, z);
            lemma_settled_before(m1, c1, m2, c2, m, z);
            lemma_comes_to(d, *mutability, types, c, m, z);
            lemma_comes_to(d, *sharedness, m1, c1, m, z);
            lemma_comes_to(d, *lifetime, m2, c2, m, z);
        },
        Ty::Application(constructor, args) => {
            let (_, m1, c1) = replace(d, *constructor, types, c)->0;
            let (_, m2, c2) = replace_seq(d, args, m1, c1)->0;
            lemma_replace_seq_grows(d, args, m1, c1);
            law_replace_all_is_fresh(d, args, m1, c1);
            lemma_settled_before(m1, c1, m2, c2, m, z);
            lemma_comes_to(d, *constructor, types, c, m, z);
            lemma_all_come_to(d, args, m1, c1, m, z);
        },
        Ty::Struct(_, fields, rest) => {
            law_replace_is_fresh(depth, t, types, c);
            let done = replace(depth, t, types, c)->0;
            lemma_settled_before(types, c, done.1, done.2, m, z);
            assert(lookup(z.type_bindings, rest) == lookup(c.type_bindings, rest));
            match lookup(c.type_bindings, rest) {
                Some(Binding::Bound(b)) => {
                    lemma_comes_to(d, b, types, c, m, z);
                    assert(z.type_bindings[rest.0 as int] is Bound);
                    if keys_unbound(m, z.type_bindings) {
                        assert(lookup(z.type_bindings, TypeVariableId(rest.0)) is Some);
                        assert(!m.contains_key(rest.0));
                    }
                },
                _ => {
                    let (x, m1, c1) = replace_variable(d, rest, types, c)->0;
                    if x is Variable {
                        let (_, m2, c2) = replace_seq(d, fields, m1, c1)->0;
                        lemma_replace_seq_grows(d, fields, m1, c1);
                        lemma_replace_variable_is_fresh(d, rest, types, c);
                        law_replace_all_is_fresh(d, fields, m1, c1);
                        lemma_settled_before(m1, c1, m2, c2, m, z);
                        lemma_variable_comes_to(d, rest, types, c, m, z);
                        lemma_all_come_to(d, fields, m1, c1, m, z);
                    } else {
                        lemma_variable_comes_to(d, rest, types, c, m, z);
                    }
                    assert(m1.contains_key(rest.0));
                    assert(m.contains_key(rest.0) && m[rest.0] == m1[rest.0]);
                },
            }
        },
        Ty::Effect(_, args) => lemma_all_come_to(d, args, types, c, m, z),
        Ty::Effects(effects, extension) => {
            let (_, m1, c1) = replace_seq(d, effects, types, c)->0;
            if let Some(id) = extension {
                let (_, m2, c2) = replace_variable(d, id, m1, c1)->0;
                lemma_replace_variable_grows(d, id, m1, c1);
                lemma_replace_variable_is_fresh(d, id, m1, c1);
                lemma_settled_before(m1, c1, m2, c2, m, z);
                lemma_variable_comes_to(d, id, m1, c1, m, z);
            }
            lemma_all_come_to(d, effects, types, c, m, z);
        },
        _ => {},
    }
}

proof fn lemma_all_come_to(
    depth: nat,
    ts: Seq<Ty>,
    types: Map<usize, Ty>,
    c: Cache,
    m: Map<usize, Ty>,
    z: Cache,
)
    requires
        replace_seq(depth, ts, types, c) matches Some(done) && fits(done) && settled(
            done.1,
            done.2,
            m,
            z,
        ),
    ensures
        all_come_to(depth, ts, (replace_seq(depth, ts, types, c)->0).0, m, z),
    decreases depth, 1nat, ts.len(),
{
    let vars = z.type_bindings;
    if ts.len() == 0 {
        assert(bind_seq(depth, ts, m, vars)->0 =~= Seq::<Ty>::empty());
    } else {
        let rest = ts.skip(1);
        let (t, m1, c1) = replace(depth, ts[0], types, c)->0;
        let (more, m2, c2) = replace_seq(depth, rest, m1, c1)->0;
        lemma_replace_seq_grows(depth, rest, m1, c1);
        law_replace_all_is_fresh(depth, rest, m1, c1);
        lemma_settled_before(m1, c1, m2, c2, m, z);
        lemma_comes_to(depth, ts[0], types, c, m, z);
        lemma_all_come_to(depth, rest, m1, c1, m, z);
        if keys_unbound(m, vars) && cached_generics_unbound(vars) && all_generics_unbound(
            ts,
            vars,
        ) {
            assert forall|i: int| 0 <= i < rest.len() implies generics_unbound(
                #[trigger] rest[i],
                vars,
            ) by {
                assert(rest[i] == ts[i + 1]);
            }
            assert(bind_seq(depth, rest, m, vars) == Some(more));
            let rs = seq![t] + more;
            assert(more.len() == rest.len());
            assert forall|i: int| 0 <= i < ts.len() implies bind(depth, #[trigger] ts[i], m, vars)
                == Some(rs[i]) by {
                if i > 0 {
                    assert(ts[i] == rest[i - 1]);
                    assert(bind(depth, rest[i - 1], m, vars) is Some);
                    assert(more[i - 1] == bind(depth, rest[i - 1], m, vars)->0);
                }
            }
            assert(bind_seq(depth, ts, m, vars)->0 =~= rs);
        }
    }
}

proof fn lemma_variable_comes_to(
    depth: nat,
    v: TypeVariableId,
    types: Map<usize, Ty>,
    c: Cache,
    m: Map<usize, Ty>,
    z: Cache,
)
    requires
        replace_variable(depth, v, types, c) matches Some(done) && fits(done) && settled(
            done.1,
            done.2,
            m,
            z,
        ),
    ensures
        variable_comes_to(depth, v, (replace_variable(depth, v, types, c)->0).0, m, z),
    decreases depth, 1nat, 0nat,
{
    let (_, m1, c1) = replace_variable(depth, v, types, c)->0;
    lemma_replace_variable_is_fresh(depth, v, types, c);
    lemma_settled_before(types, c, m1, c1, m, z);
    assert(lookup(z.type_bindings, v) == lookup(c.type_bindings, v));
    match lookup(c.type_bindings, v) {
        Some(Binding::Bound(b)) => {
            lemma_comes_to(depth, b, types, c, m, z);
            assert(z.type_bindings[v.0 as int] is Bound);
            if keys_unbound(m, z.type_bindings) {
                assert(lookup(z.type_bindings, TypeVariableId(v.0)) is Some);
                assert(!m.contains_key(v.0));
            }
        },
        _ => {
            assert(m1.contains_key(v.0));
        },
    }
}

/// Replacing all the variables of a type once more, with the bindings of the first time, gives the
/// same type and makes nothing new: each variable is replaced consistently.
pub proof fn law_replace_again(depth: nat, t: Ty, types: Map<usize, Ty>, c: Cache)
    requires
        replace(depth, t, types, c) is Some,
        fits(replace(depth, t, types, c)->0),
    ensures
        ({
            let (r, m, c1) = replace(depth, t, types, c)->0;
            replace(depth, t, m, c1) == Some((r, m, c1))
        }),
{
    let (_, m, c1) = replace(depth, t, types, c)->0;
    lemma_comes_to(depth, t, types, c, m, c1);
}

/// What replacing all the variables of several types gives is what the bindings it returns say,
/// the same ones for all the types: binding the types with them gives the same. The bindings are
/// exactly of the unbound variables inside the types, each to a variable of its own. Where there
/// are no bindings, because there is no unbound variable, `bind_typevars` just clones, so that
/// bound variables are not replaced by it.
pub proof fn law_replaced_as_bound(ts: Seq<Ty>, c: Cache)
    requires
        replace_seq(MAX_DEPTH as nat, ts, Map::empty(), c) is Some,
        fits(replace_seq(MAX_DEPTH as nat, ts, Map::empty(), c)->0),
    ensures
        ({
            let (rs, m, c1) = replace_seq(MAX_DEPTH as nat, ts, Map::empty(), c)->0;
            let vars = c1.type_bindings;
            &&& all_generics_unbound(ts, vars) && cached_generics_unbound(vars) ==> {
                &&& bind_seq(MAX_DEPTH as nat, ts, m, vars) == Some(rs)
                &&& m != Map::<usize, Ty>::empty() ==> forall|i: int|
                    0 <= i < ts.len() ==> bound_type(#[trigger] ts[i], m, vars) == Some(rs[i])
            }
            &&& forall|v: TypeVariableId| #[trigger]
                m.contains_key(v.0) <==> exists|n: nat| inside_any(n, ts, v, c1)
            &&& forall|k: usize| #[trigger] m.contains_key(k) ==> m[k] is Variable
            &&& forall|j: usize, k: usize|
                m.contains_key(j) && m.contains_key(k) && #[trigger] m[j] == #[trigger] m[k]
                    ==> j == k
        }),
{
    let depth = MAX_DEPTH as nat;
    let none = Map::<usize, Ty>::empty();
    let (rs, m, c1) = replace_seq(depth, ts, none, c)->0;
    let vars = c1.type_bindings;
    law_replace_all_is_fresh(depth, ts, none, c);
    lemma_all_come_to(depth, ts, none, c, m, c1);
    assert(keys_unbound(m, vars)) by {
        assert forall|k: usize| #[trigger] m.contains_key(k) implies !(lookup(
            vars,
            TypeVariableId(k),
        ) matches Some(Binding::Bound(_))) by {
            assert(!none.contains_key(k));
            assert(vars[k as int] is Unbound);
        }
    }
    if all_generics_unbound(ts, vars) && cached_generics_unbound(vars) {
        assert forall|i: int| 0 <= i < ts.len() implies bind(depth, #[trigger] ts[i], m, vars)
            == Some(rs[i]) by {
            assert(rs == bind_seq(depth, ts, m, vars)->0);
            assert(bind(depth, ts[i], m, vars) is Some);
        }
    }
    assert forall|v: TypeVariableId| #[trigger]
        m.contains_key(v.0) <==> exists|n: nat| inside_any(n, ts, v, c1) by {
        if m.contains_key(v.0) {
            lemma_keys_are_inside_all(depth, ts, none, c, v);
            assert(inside_any(depth, ts, v, c1));
        }
        if exists|n: nat| inside_any(n, ts, v, c1) {
            let n = choose|n: nat| inside_any(n, ts, v, c1);
            assert(replace_seq(depth, ts, m, c1) == Some((rs, m, c1)));
            assert(only_variables(m)) by {
                assert forall|k: usize| #[trigger] m.contains_key(k) implies m[k] is Variable by {
                    assert(!none.contains_key(k));
                }
            }
            law_replaces_every_variable_of_all(depth, ts, m, c1, v, n);
        }
    }
    assert forall|k: usize| #[trigger] m.contains_key(k) implies m[k] is Variable by {
        assert(!none.contains_key(k));
    }
    assert forall|j: usize, k: usize|
        m.contains_key(j) && m.contains_key(k) && #[trigger] m[j] == #[trigger] m[k] implies j
        == k by {
        assert(!none.contains_key(j) && !none.contains_key(k));
    }
}

/// A variable that replacing binds stands inside the type.
proof fn lemma_keys_are_inside(
    depth: nat,
    t: Ty,
    types: Map<usize, Ty>,
    c: Cache,
    v: TypeVariableId,
)
    requires
        replace(depth, t, types, c) is Some,
        fits(replace(depth, t, types, c)->0),
        (replace(depth, t, types, c)->0).1.contains_key(v.0),
        !types.contains_key(v.0),
    ensures
        inside(depth, t, v, (replace(depth, t, types, c)->0).2),
    decreases depth, 0nat, 0nat,
{
    let d = (depth - 1) as nat;
    let last = (replace(depth, t, types, c)->0).2;
    law_replace_is_fresh(depth, t, types, c);
    match t {
        Ty::Variable(id) | Ty::NamedGeneric(id, _) => {
            lemma_key_is_inside_variable(d, id, types, c, v);
            assert(inside_variable(d, id, v, last));
        },
        Ty::Function { parameters, return_type, environment, effects, .. } => {
            let (_, m1, c1) = replace_seq(d, parameters, types, c)->0;
            let (_, m2, c2) = replace(d, *return_type, m1, c1)->0;
            let (_, m3, c3) = replace(d, *environment, m2, c2)->0;
            let (_, m4, c4) = replace(d, *effects, m3, c3)->0;
            lemma_replace_grows(d, *effects, m3, c3);
            lemma_replace_grows(d, *environment, m2, c2);
            lemma_replace_grows(d, *return_type, m1, c1);
            law_replace_is_fresh(d, *return_type, m1, c1);
            law_replace_is_fresh(d, *environment, m2, c2);
            law_replace_is_fresh(d, *effects, m3, c3);
            if m1.contains_key(v.0) {
                lemma_keys_are_inside_all(d, parameters, types, c, v);
                lemma_inside_any_grows(d, parameters, v, c1, c4);
            } else if m2.contains_key(v.0) {
                lemma_keys_are_inside(d, *return_type, m1, c1, v);
                lemma_inside_grows(d, *return_type, v, c2, c4);
            } else if m3.contains_key(v.0) {
                lemma_keys_are_inside(d, *environment, m2, c2, v);
                lemma_inside_grows(d, *environment, v, c3, c4);
            } else {
                lemma_keys_are_inside(d, *effects, m3, c3, v);
            }
        },
        Ty::Ref { sharedness, mutability, lifetime } => {
            let (_, m1, c1) = replace(d, *mutability, types, c)->0;
            let (_, m2, c2) = replace(d, *sharedness, m1, c1)->0;
            let (_, m3, c3) = replace(d, *lifetime, m2, c2)->0;
            lemma_replace_grows(d, *lifetime, m2, c2);
            lemma_replace_grows(d, *sharedness, m1, c1);
            law_replace_is_fresh(d, *sharedness, m1, c1);
            law_replace_is_fresh(d, *lifetime, m2, c2);
            if m1.contains_key(v.0) {
                lemma_keys_are_inside(d, *mutability, types, c, v);
                lemma_inside_grows(d, *mutability, v, c1, c3);
            } else if m2.contains_key(v.0) {
                lemma_keys_are_inside(d, *sharedness, m1, c1, v);
                lemma_inside_grows(d, *sharedness, v, c2, c3);
            } else {
                lemma_keys_are_inside(d, *lifetime, m2, c2, v);
            }
        },
        Ty::Application(constructor, args) => {
            let (_, m1, c1) = replace(d, *constructor, types, c)->0;
            let (_, m2, c2) = replace_seq(d, args, m1, c1)->0;
            lemma_replace_seq_grows(d, args, m1, c1);
            law_replace_all_is_fresh(d, args, m1, c1);
            if m1.contains_key(v.0) {
                lemma_keys_are_inside(d, *constructor, types, c, v);
                lemma_inside_grows(d, *constructor, v, c1, c2);
            } else {
                lemma_keys_are_inside_all(d, args, m1, c1, v);
            }
        },
        Ty::Struct(_, fields, rest) => {
            assert(lookup(last.type_bindings, rest) == lookup(c.type_bindings, rest));
            match lookup(c.type_bindings, rest) {
                Some(Binding::Bound(b)) => lemma_keys_are_inside(d, b, types, c, v),
                _ => {
                    let (x, m1, c1) = replace_variable(d, rest, types, c)->0;
                    if m1.contains_key(v.0) {
                        assert(inside_variable(d, rest, v, last));
                    } else {
                        lemma_keys_are_inside_all(d, fields, m1, c1, v);
                    }
                },
            }
        },
        Ty::Effect(_, args) => lemma_keys_are_inside_all(d, args, types, c, v),
        Ty::Effects(effects, extension) => {
            let (_, m1, c1) = replace_seq(d, effects, types, c)->0;
            if let Some(id) = extension {
                let (_, m2, c2) = replace_variable(d, id, m1, c1)->0;
                lemma_replace_variable_grows(d, id, m1, c1);
                lemma_replace_variable_is_fresh(d, id, m1, c1);
                if m1.contains_key(v.0) {
                    lemma_keys_are_inside_all(d, effects, types, c, v);
                    lemma_inside_any_grows(d, effects, v, c1, c2);
                } else {
                    lemma_key_is_inside_variable(d, id, m1, c1, v);
                    assert(inside_variable(d, id, v, last));
                }
            } else {
                lemma_keys_are_inside_all(d, effects, types, c, v);
            }
        },
        _ => {},
    }
}

proof fn lemma_keys_are_inside_all(
    depth: nat,
    ts: Seq<Ty>,
    types: Map<usize, Ty>,
    c: Cache,
    v: TypeVariableId,
)
    requires
        replace_seq(depth, ts, types, c) is Some,
        fits(replace_seq(depth, ts, types, c)->0),
        (replace_seq(depth, ts, types, c)->0).1.contains_key(v.0),
        !types.contains_key(v.0),
    ensures
        inside_any(depth, ts, v, (replace_seq(depth, ts, types, c)->0).2),
    decreases depth, 1nat, ts.len(),
{
    let rest = ts.skip(1);
    let (_, m1, c1) = replace(depth, ts[0], types, c)->0;
    let (_, m2, c2) = replace_seq(depth, rest, m1, c1)->0;
    lemma_replace_seq_grows(depth, rest, m1, c1);
    law_replace_all_is_fresh(depth, rest, m1, c1);
    if m1.contains_key(v.0) {
        lemma_keys_are_inside(depth, ts[0], types, c, v);
        lemma_inside_grows(depth, ts[0], v, c1, c2);
    } else {
        lemma_keys_are_inside_all(depth, rest, m1, c1, v);
        let i = choose|i: int| 0 <= i < rest.len() && inside(depth, #[trigger] rest[i], v, c2);
        assert(ts[i + 1] == rest[i]);
    }
}

proof fn lemma_key_is_inside_variable(
    depth: nat,
    w: TypeVariableId,
    types: Map<usize, Ty>,
    c: Cache,
    v: TypeVariableId,
)
    requires
        replace_variable(depth, w, types, c) is Some,
        fits(replace_variable(depth, w, types, c)->0),
        (replace_variable(depth, w, types, c)->0).1.contains_key(v.0),
        !types.contains_key(v.0),
    ensures
        inside_variable(depth, w, v, (replace_variable(depth, w, types, c)->0).2),
    decreases depth, 1nat, 0nat,
{
    lemma_replace_variable_is_fresh(depth, w, types, c);
    let last = (replace_variable(depth, w, types, c)->0).2;
    assert(lookup(last.type_bindings, w) == lookup(c.type_bindings, w));
    match lookup(c.type_bindings, w) {
        Some(Binding::Bound(b)) => lemma_keys_are_inside(depth, b, types, c, v),
        _ => {
            assert(w == v);
        },
    }
}

/// Whether none of the bindings is to a type from which the variable can be reached.
pub open spec fn no_value_reaches(
    v: TypeVariableId,
    types: Map<usize, Ty>,
    vars: Seq<Binding>,
) -> bool {
    forall|k: usize, n: nat|
        types.contains_key(k) ==> !#[trigger] reaches(n, types[k], v, Map::empty(), vars)
}

/// A variable that was replaced cannot be reached from the result.
proof fn lemma_replaced_is_not_reached(
    depth: nat,
    t: Ty,
    types: Map<usize, Ty>,
    vars: Seq<Binding>,
    v: TypeVariableId,
    n: nat,
)
    requires
        bind(depth, t, types, vars) is Some,
        types.contains_key(v.0),
        no_value_reaches(v, types, vars),
        generics_unbound(t, vars),
        cached_generics_unbound(vars),
    ensures
        !reaches(n, bind(depth, t, types, vars)->0, v, Map::empty(), vars),
    decreases depth, 0nat,
{
    let none = Map::<usize, Ty>::empty();
    let d = (depth - 1) as nat;
    let m = (n - 1) as nat;
    let r = bind(depth, t, types, vars)->0;
    if reaches(n, r, v, none, vars) {
        match t {
            Ty::Variable(id) => {
                lemma_replaced_variable_is_not_reached(d, id, types, vars, v, n);
            },
            Ty::NamedGeneric(id, _) => {
                if types.contains_key(id.0) {
                    assert(!reaches(n, types[id.0], v, none, vars));
                } else {
                    assert(reaches_through(m, id, v, none, vars));
                }
            },
            Ty::Function { parameters, return_type, environment, effects, .. } => {
                lemma_replaced_are_not_reached(d, parameters, types, vars, v, m);
                lemma_replaced_is_not_reached(d, *return_type, types, vars, v, m);
                lemma_replaced_is_not_reached(d, *environment, types, vars, v, m);
                lemma_replaced_is_not_reached(d, *effects, types, vars, v, m);
            },
            Ty::Ref { sharedness, mutability, lifetime } => {
                lemma_replaced_is_not_reached(d, *sharedness, types, vars, v, m);
                lemma_replaced_is_not_reached(d, *mutability, types, vars, v, m);
                lemma_replaced_is_not_reached(d, *lifetime, types, vars, v, m);
            },
            Ty::Application(constructor, args) => {
                lemma_replaced_is_not_reached(d, *constructor, types, vars, v, m);
                lemma_replaced_are_not_reached(d, args, types, vars, v, m);
            },
            Ty::Struct(_, fields, rest) => {
                if types.contains_key(rest.0) {
                    assert(!reaches(n, types[rest.0], v, none, vars));
                    if let Ty::Variable(id) = types[rest.0] {
                        assert(!reaches_through(m, id, v, none, vars));
                        lemma_replaced_are_not_reached(d, fields, types, vars, v, m);
                    }
                } else {
                    match lookup(vars, rest) {
                        Some(Binding::Bound(b)) => {
                            assert(vars[rest.0 as int] is Bound);
                            lemma_replaced_is_not_reached(d, b, types, vars, v, n);
                        },
                        _ => {
                            assert(!reaches_through(m, rest, v, none, vars));
                            lemma_replaced_are_not_reached(d, fields, types, vars, v, m);
                        },
                    }
                }
            },
            Ty::Effect(_, args) => lemma_replaced_are_not_reached(d, args, types, vars, v, m),
            Ty::Effects(effects, extension) => {
                lemma_replaced_are_not_reached(d, effects, types, vars, v, m);
                if let Some(id) = extension {
                    let x = bind_variable(d, id, types, vars)->0;
                    let e = bind_seq(d, effects, types, vars)->0;
                    lemma_replaced_variable_is_not_reached(d, id, types, vars, v, n);
                    assert(!reaches(n, x, v, none, vars));
                    match x {
                        Ty::Variable(w) => {
                            assert(!reaches_through(m, w, v, none, vars));
                        },
                        Ty::NamedGeneric(w, _) => {
                            assert(!reaches_through(m, w, v, none, vars));
                        },
                        Ty::Effects(more, end) => {
                            assert forall|i: int| 0 <= i < (e + more).len() implies !reaches(
                                m,
                                #[trigger] (e + more)[i],
                                v,
                                none,
                                vars,
                            ) by {
                                if i >= e.len() {
                                    assert((e + more)[i] == more[i - e.len()]);
                                } else {
                                    assert((e + more)[i] == e[i]);
                                }
                            }
                            if let Some(w) = end {
                                assert(!reaches_through(m, w, v, none, vars));
                            }
                        },
                        _ => {},
                    }
                }
            },
            _ => {},
        }
    }
}

proof fn lemma_replaced_are_not_reached(
    depth: nat,
    ts: Seq<Ty>,
    types: Map<usize, Ty>,
    vars: Seq<Binding>,
    v: TypeVariableId,
    n: nat,
)
    requires
        bind_seq(depth, ts, types, vars) is Some,
        types.contains_key(v.0),
        no_value_reaches(v, types, vars),
        all_generics_unbound(ts, vars),
        cached_generics_unbound(vars),
    ensures
        forall|i: int|
            0 <= i < ts.len() ==> !reaches(
                n,
                #[trigger] bind_seq(depth, ts, types, vars)->0[i],
                v,
                Map::empty(),
                vars,
            ),
    decreases depth, 1nat,
{
    assert forall|i: int| 0 <= i < ts.len() implies !reaches(
        n,
        #[trigger] bind_seq(depth, ts, types, vars)->0[i],
        v,
        Map::empty(),
        vars,
    ) by {
        assert(bind(depth, ts[i], types, vars) is Some);
        lemma_replaced_is_not_reached(depth, ts[i], types, vars, v, n);
    }
}

proof fn lemma_replaced_variable_is_not_reached(
    depth: nat,
    id: TypeVariableId,
    types: Map<usize, Ty>,
    vars: Seq<Binding>,
    v: TypeVariableId,
    n: nat,
)
    requires
        bind_variable(depth, id, types, vars) is Some,
        types.contains_key(v.0),
        no_value_reaches(v, types, vars),
        cached_generics_unbound(vars),
    ensures
        !reaches(n, bind_variable(depth, id, types, vars)->0, v, Map::empty(), vars),
    decreases depth, 1nat,
{
    let none = Map::<usize, Ty>::empty();
    if types.contains_key(id.0) {
        assert(!reaches(n, types[id.0], v, none, vars));
    } else {
        match lookup(vars, id) {
            Some(Binding::Bound(b)) => {
                assert(vars[id.0 as int] is Bound);
                lemma_replaced_is_not_reached(depth, b, types, vars, v, n);
            },
            _ => {
                if n > 0 {
                    assert(!reaches_through((n - 1) as nat, id, v, none, vars));
                }
            },
        }
    }
}

/// Whether the list has exactly the variables that the bindings are of.
pub open spec fn lists_keys(keys: Seq<TypeVariableId>, types: Map<usize, Ty>) -> bool {
    forall|v: TypeVariableId| #[trigger] keys.contains(v) <==> types.contains_key(v.0)
}

/// After the variables of a type were replaced as the bindings say, none of the variables that the
/// bindings are of is contained in it, if none is contained in what they are bound to.
pub proof fn law_replaced_are_not_contained(
    t: Ty,
    types: Map<usize, Ty>,
    vars: Seq<Binding>,
    keys: Seq<TypeVariableId>,
)
    requires
        bound_type(t, types, vars) is Some,
        lists_keys(keys, types),
        forall|k: usize| #[trigger]
            types.contains_key(k) ==> holds_any(MAX_DEPTH as nat, types[k], keys, vars) == Some(
                false,
            ),
        generics_unbound(t, vars),
        cached_generics_unbound(vars),
        holds_any(MAX_DEPTH as nat, bound_type(t, types, vars)->0, keys, vars) is Some,
    ensures
        holds_any(MAX_DEPTH as nat, bound_type(t, types, vars)->0, keys, vars) == Some(false),
{
    let none = Map::<usize, Ty>::empty();
    let depth = MAX_DEPTH as nat;
    let r = bound_type(t, types, vars)->0;
    if holds_any(depth, r, keys, vars) == Some(true) {
        law_contains_reaches(depth, r, keys, vars);
        let v = choose|v: TypeVariableId|
            keys.contains(v) && #[trigger] reaches(depth, r, v, none, vars);
        assert(types.contains_key(v.0));
        assert(no_value_reaches(v, types, vars)) by {
            assert forall|k: usize, n: nat| types.contains_key(k) implies !#[trigger] reaches(
                n,
                types[k],
                v,
                none,
                vars,
            ) by {
                if reaches(n, types[k], v, none, vars) {
                    law_reaches_contains(depth, types[k], keys, vars, n, v);
                }
            }
        }
        lemma_replaced_is_not_reached(depth, t, types, vars, v, depth);
    }
}

/// Whether every variable in the type is unbound and is none that the renaming gives, and there is
/// no named generic.
pub open spec fn is_renamable(
    t: Ty,
    m: Map<usize, TypeVariableId>,
    vars: Seq<Binding>,
) -> bool
    decreases t,
{
    match t {
        Ty::Variable(v) => is_renamable_variable(v, m, vars),
        Ty::NamedGeneric(_, _) => false,
        Ty::Function { parameters, return_type, environment, effects, has_varargs } => {
            &&& forall|i: int|
                0 <= i < parameters.len() ==> is_renamable(#[trigger] parameters[i], m, vars)
            &&& is_renamable(*return_type, m, vars)
            &&& is_renamable(*environment, m, vars)
            &&& is_renamable(*effects, m, vars)
        },
        Ty::Application(constructor, args) => {
            &&& is_renamable(*constructor, m, vars)
            &&& forall|i: int| 0 <= i < args.len() ==> is_renamable(#[trigger] args[i], m, vars)
        },
        Ty::Ref { sharedness, mutability, lifetime } => {
            &&& is_renamable(*sharedness, m, vars)
            &&& is_renamable(*mutability, m, vars)
            &&& is_renamable(*lifetime, m, vars)
        },
        Ty::Struct(_, fields, rest) => {
            &&& is_renamable_variable(rest, m, vars)
            &&& forall|i: int| 0 <= i < fields.len() ==> is_renamable(#[trigger] fields[i], m, vars)
        },
        Ty::Effect(_, args) => forall|i: int|
            0 <= i < args.len() ==> is_renamable(#[trigger] args[i], m, vars),
        Ty::Effects(effects, extension) => {
            &&& forall|i: int|
                0 <= i < effects.len() ==> is_renamable(#[trigger] effects[i], m, vars)
            &&& extension matches Some(v) ==> is_renamable_variable(v, m, vars)
        },
        _ => true,
    }
}

/// Whether the variable is unbound and is none that the renaming gives.
pub open spec fn is_renamable_variable(
    v: TypeVariableId,
    m: Map<usize, TypeVariableId>,
    vars: Seq<Binding>,
) -> bool {
    &&& lookup(vars, v) matches Some(Binding::Unbound(_, _))
    &&& forall|k: usize| #[trigger] m.contains_key(k) ==> m[k] != v
}

/// Whether the second renaming undoes the first, and the first the second.
pub open spec fn is_inverse(
    m: Map<usize, TypeVariableId>,
    inv: Map<usize, TypeVariableId>,
) -> bool {
    &&& forall|k: usize| #[trigger]
        m.contains_key(k) ==> inv.contains_key(m[k].0) && inv[m[k].0] == TypeVariableId(k)
    &&& forall|k: usize| #[trigger]
        inv.contains_key(k) ==> m.contains_key(inv[k].0) && m[inv[k].0] == TypeVariableId(k)
}

/// The variable, renamed if the renaming has it.
pub open spec fn renamed(v: TypeVariableId, m: Map<usize, TypeVariableId>) -> TypeVariableId {
    if m.contains_key(v.0) {
        m[v.0]
    } else {
        v
    }
}

/// Whether the second type is the first with its variables renamed, and nothing else changed: a
/// variable that the renaming does not have is the same in both.
pub open spec fn is_renamed(t: Ty, r: Ty, m: Map<usize, TypeVariableId>) -> bool
    decreases t,
{
    match (t, r) {
        (Ty::Variable(v), Ty::Variable(w)) => w == renamed(v, m),
        (
            Ty::Function { parameters, return_type, environment, effects, has_varargs },
            Ty::Function {
                parameters: parameters2,
                return_type: return_type2,
                environment: environment2,
                effects: effects2,
                has_varargs: has_varargs2,
            },
        ) => {
            &&& are_renamed(parameters, parameters2, m)
            &&& is_renamed(*return_type, *return_type2, m)
            &&& is_renamed(*environment, *environment2, m)
            &&& is_renamed(*effects, *effects2, m)
            &&& has_varargs == has_varargs2
        },
        (Ty::Application(c1, args1), Ty::Application(c2, args2)) => {
            &&& is_renamed(*c1, *c2, m)
            &&& are_renamed(args1, args2, m)
        },
        (
            Ty::Ref { sharedness, mutability, lifetime },
            Ty::Ref { sharedness: sharedness2, mutability: mutability2, lifetime: lifetime2 },
        ) => {
            &&& is_renamed(*sharedness, *sharedness2, m)
            &&& is_renamed(*mutability, *mutability2, m)
            &&& is_renamed(*lifetime, *lifetime2, m)
        },
        (Ty::Struct(names1, types1, rest1), Ty::Struct(names2, types2, rest2)) => {
            &&& names1 == names2
            &&& are_renamed(types1, types2, m)
            &&& rest2 == renamed(rest1, m)
        },
        (Ty::Effect(id1, args1), Ty::Effect(id2, args2)) => {
            &&& id1 == id2
            &&& are_renamed(args1, args2, m)
        },
        (Ty::Effects(effects1, extension1), Ty::Effects(effects2, extension2)) => {
            &&& are_renamed(effects1, effects2, m)
            &&& match (extension1, extension2) {
                (None, None) => true,
                (Some(v), Some(w)) => w == renamed(v, m),
                _ => false,
            }
        },
        _ => t == r,
    }
}

/// Whether the types are the others with their variables renamed.
pub open spec fn are_renamed(ts: Seq<Ty>, rs: Seq<Ty>, m: Map<usize, TypeVariableId>) -> bool
    decreases ts,
{
    &&& ts.len() == rs.len()
    &&& forall|i: int| 0 <= i < ts.len() ==> is_renamed(#[trigger] ts[i], rs[i], m)
}

/// Renaming the variables of a type renames them and nothing else, and the inverse renaming gives
/// the type back.
proof fn lemma_rename_and_back(
    depth: nat,
    t: Ty,
    m: Map<usize, TypeVariableId>,
    inv: Map<usize, TypeVariableId>,
    vars: Seq<Binding>,
)
    requires
        bind(depth, t, renaming(m), vars) is Some,
        is_renamable(t, m, vars),
        is_inverse(m, inv),
    ensures
        is_renamed(t, bind(depth, t, renaming(m), vars)->0, m),
        bind(depth, bind(depth, t, renaming(m), vars)->0, renaming(inv), vars) == Some(t),
    decreases depth, 0nat,
{
    let d = (depth - 1) as nat;
    let r = bind(depth, t, renaming(m), vars)->0;
    match t {
        Ty::Variable(v) => {
            lemma_variable_and_back(d, v, m, inv, vars);
        },
        Ty::Function { parameters, return_type, environment, effects, .. } => {
            lemma_rename_all_and_back(d, parameters, m, inv, vars);
            lemma_rename_and_back(d, *return_type, m, inv, vars);
            lemma_rename_and_back(d, *environment, m, inv, vars);
            lemma_rename_and_back(d, *effects, m, inv, vars);
        },
        Ty::Ref { sharedness, mutability, lifetime } => {
            lemma_rename_and_back(d, *sharedness, m, inv, vars);
            lemma_rename_and_back(d, *mutability, m, inv, vars);
            lemma_rename_and_back(d, *lifetime, m, inv, vars);
        },
        Ty::Application(constructor, args) => {
            lemma_rename_and_back(d, *constructor, m, inv, vars);
            lemma_rename_all_and_back(d, args, m, inv, vars);
        },
        Ty::Struct(_, fields, rest) => {
            lemma_variable_and_back(d, rest, m, inv, vars);
            lemma_rename_all_and_back(d, fields, m, inv, vars);
        },
        Ty::Effect(_, args) => lemma_rename_all_and_back(d, args, m, inv, vars),
        Ty::Effects(effects, extension) => {
            lemma_rename_all_and_back(d, effects, m, inv, vars);
            if let Some(v) = extension {
                lemma_variable_and_back(d, v, m, inv, vars);
            }
        },
        _ => {},
    }
}

proof fn lemma_rename_all_and_back(
    depth: nat,
    ts: Seq<Ty>,
    m: Map<usize, TypeVariableId>,
    inv: Map<usize, TypeVariableId>,
    vars: Seq<Binding>,
)
    requires
        bind_seq(depth, ts, renaming(m), vars) is Some,
        forall|i: int| 0 <= i < ts.len() ==> is_renamable(#[trigger] ts[i], m, vars),
        is_inverse(m, inv),
    ensures
        are_renamed(ts, bind_seq(depth, ts, renaming(m), vars)->0, m),
        bind_seq(depth, bind_seq(depth, ts, renaming(m), vars)->0, renaming(inv), vars) == Some(ts),
    decreases depth, 1nat,
{
    let rs = bind_seq(depth, ts, renaming(m), vars)->0;
    assert forall|i: int| 0 <= i < ts.len() implies is_renamed(#[trigger] ts[i], rs[i], m) && bind(
        depth,
        rs[i],
        renaming(inv),
        vars,
    ) == Some(ts[i]) by {
        assert(bind(depth, ts[i], renaming(m), vars) is Some);
        lemma_rename_and_back(depth, ts[i], m, inv, vars);
    }
    assert forall|i: int| 0 <= i < rs.len() implies bind(
        depth,
        #[trigger] rs[i],
        renaming(inv),
        vars,
    ) == Some(ts[i]) by {
        assert(is_renamed(ts[i], rs[i], m));
    }
    assert(bind_seq(depth, rs, renaming(inv), vars)->0 =~= ts);
}

proof fn lemma_variable_and_back(
    depth: nat,
    v: TypeVariableId,
    m: Map<usize, TypeVariableId>,
    inv: Map<usize, TypeVariableId>,
    vars: Seq<Binding>,
)
    requires
        is_renamable_variable(v, m, vars),
        is_inverse(m, inv),
    ensures
        bind_variable(depth, v, renaming(m), vars) == Some(Ty::Variable(renamed(v, m))),
        bind_variable(depth, renamed(v, m), renaming(inv), vars) == Some(Ty::Variable(v)),
        m.contains_key(v.0) == inv.contains_key(renamed(v, m).0),
{
    if m.contains_key(v.0) {
        assert(renaming(m).contains_key(v.0));
        assert(inv.contains_key(m[v.0].0));
        assert(renaming(inv).contains_key(m[v.0].0));
    } else {
        assert(!renaming(m).contains_key(v.0));
        if inv.contains_key(v.0) {
            assert(m.contains_key(inv[v.0].0));
        }
        assert(!renaming(inv).contains_key(v.0));
    }
}

proof fn lemma_renamed_by_nothing(t: Ty)
    ensures
        is_renamed(t, t, Map::empty()),
    decreases t,
{
    let none = Map::<usize, TypeVariableId>::empty();
    match t {
        Ty::Function { parameters, return_type, environment, effects, .. } => {
            lemma_all_renamed_by_nothing(parameters);
            lemma_renamed_by_nothing(*return_type);
            lemma_renamed_by_nothing(*environment);
            lemma_renamed_by_nothing(*effects);
        },
        Ty::Ref { sharedness, mutability, lifetime } => {
            lemma_renamed_by_nothing(*sharedness);
            lemma_renamed_by_nothing(*mutability);
            lemma_renamed_by_nothing(*lifetime);
        },
        Ty::Application(constructor, args) => {
            lemma_renamed_by_nothing(*constructor);
            lemma_all_renamed_by_nothing(args);
        },
        Ty::Struct(_, fields, _) => lemma_all_renamed_by_nothing(fields),
        Ty::Effect(_, args) => lemma_all_renamed_by_nothing(args),
        Ty::Effects(effects, _) => lemma_all_renamed_by_nothing(effects),
        _ => {},
    }
}

proof fn lemma_all_renamed_by_nothing(ts: Seq<Ty>)
    ensures
        are_renamed(ts, ts, Map::empty()),
    decreases ts,
{
    assert forall|i: int| 0 <= i < ts.len() implies is_renamed(
        #[trigger] ts[i],
        ts[i],
        Map::empty(),
    ) by {
        lemma_renamed_by_nothing(ts[i]);
    }
}

/// Renaming the variables of a type changes nothing but the variables that the renaming has, and
/// renaming once more with the inverse renaming gives the type back. The variables of the type are
/// to be unbound, and none of them one that the renaming gives.
pub proof fn law_rename_and_back(
    t: Ty,
    m: Map<usize, TypeVariableId>,
    inv: Map<usize, TypeVariableId>,
    vars: Seq<Binding>,
)
    requires
        bound_type(t, renaming(m), vars) is Some,
        is_renamable(t, m, vars),
        is_inverse(m, inv),
    ensures
        is_renamed(t, bound_type(t, renaming(m), vars)->0, m),
        bound_type(bound_type(t, renaming(m), vars)->0, renaming(inv), vars) == Some(t),
{
    let none = Map::<usize, Ty>::empty();
    if renaming(m) == none {
        assert forall|k: usize| !m.contains_key(k) by {
            if m.contains_key(k) {
                assert(renaming(m).contains_key(k));
            }
        }
        assert(m =~= Map::<usize, TypeVariableId>::empty());
        assert(renaming(inv) =~= none) by {
            assert forall|k: usize| !renaming(inv).contains_key(k) by {
                if inv.contains_key(k) {
                    assert(m.contains_key(inv[k].0));
                }
            }
        }
        lemma_renamed_by_nothing(t);
    } else {
        lemma_rename_and_back(MAX_DEPTH as nat, t, m, inv, vars);
        assert(renaming(inv) != none) by {
            if renaming(inv) == none {
                assert(renaming(m) =~= none) by {
                    assert forall|k: usize| !renaming(m).contains_key(k) by {
                        if m.contains_key(k) {
                            assert(renaming(inv).contains_key(m[k].0));
                        }
                    }
                }
            }
        }
    }
}

} // verus!
