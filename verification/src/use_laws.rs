//! What the use of a variable comes to: an instance of its type, and all the constraints that its
//! definition asks for.

use crate::cache::{lookup, Binding, Cache, Constraint, DefinitionInfoId, Origin, Required, Scheme};
use crate::instantiate::{fresh_names, law_fresh_names, missing_names, renaming};
use crate::resolve::MAX_DEPTH;
use crate::rule_laws::is_new;
use crate::subst::{bind, bind_seq, bind_variable, bound_type, bound_types};
use crate::tree::Tree;
use crate::types::{Ty, TypeVariableId};
use crate::typevars::vars_in_constraints;
use crate::values::{looked_up, variable_used, Looked};
use vstd::prelude::*;

verus! {

/// Whether the one table has all entries of the other, and may have more.
pub open spec fn has_all(vars: Seq<Binding>, more: Seq<Binding>) -> bool {
    &&& vars.len() <= more.len()
    &&& forall|i: int| 0 <= i < vars.len() ==> #[trigger] more[i] == vars[i]
}

/// Replacing variables does not depend on variables that were made later.
proof fn lemma_bind_more(
    depth: nat,
    t: Ty,
    types: Map<usize, Ty>,
    vars: Seq<Binding>,
    more: Seq<Binding>,
)
    requires
        bind(depth, t, types, vars) is Some,
        has_all(vars, more),
    ensures
        bind(depth, t, types, more) == bind(depth, t, types, vars),
    decreases depth, 0nat,
{
    let d = (depth - 1) as nat;
    match t {
        Ty::Variable(id) => lemma_bind_variable_more(d, id, types, vars, more),
        Ty::Function { parameters, return_type, environment, effects, .. } => {
            lemma_bind_seq_more(d, parameters, types, vars, more);
            lemma_bind_more(d, *return_type, types, vars, more);
            lemma_bind_more(d, *environment, types, vars, more);
            lemma_bind_more(d, *effects, types, vars, more);
        },
        Ty::Ref { sharedness, mutability, lifetime } => {
            lemma_bind_more(d, *mutability, types, vars, more);
            lemma_bind_more(d, *sharedness, types, vars, more);
            lemma_bind_more(d, *lifetime, types, vars, more);
        },
        Ty::Application(constructor, args) => {
            lemma_bind_more(d, *constructor, types, vars, more);
            lemma_bind_seq_more(d, args, types, vars, more);
        },
        Ty::Struct(_, fields, rest) => {
            if types.contains_key(rest.0) {
                if types[rest.0] is Variable {
                    lemma_bind_seq_more(d, fields, types, vars, more);
                }
            } else {
                assert(more[rest.0 as int] == vars[rest.0 as int]);
                match lookup(vars, rest) {
                    Some(Binding::Bound(b)) => lemma_bind_more(d, b, types, vars, more),
                    _ => lemma_bind_seq_more(d, fields, types, vars, more),
                }
            }
        },
        Ty::Effect(_, args) => lemma_bind_seq_more(d, args, types, vars, more),
        Ty::Effects(effects, extension) => {
            lemma_bind_seq_more(d, effects, types, vars, more);
            if let Some(id) = extension {
                lemma_bind_variable_more(d, id, types, vars, more);
            }
        },
        _ => {},
    }
}

proof fn lemma_bind_variable_more(
    depth: nat,
    id: TypeVariableId,
    types: Map<usize, Ty>,
    vars: Seq<Binding>,
    more: Seq<Binding>,
)
    requires
        bind_variable(depth, id, types, vars) is Some,
        has_all(vars, more),
    ensures
        bind_variable(depth, id, types, more) == bind_variable(depth, id, types, vars),
    decreases depth, 1nat,
{
    if !types.contains_key(id.0) {
        assert(more[id.0 as int] == vars[id.0 as int]);
        if let Some(Binding::Bound(b)) = lookup(vars, id) {
            lemma_bind_more(depth, b, types, vars, more);
        }
    }
}

proof fn lemma_bind_seq_more(
    depth: nat,
    ts: Seq<Ty>,
    types: Map<usize, Ty>,
    vars: Seq<Binding>,
    more: Seq<Binding>,
)
    requires
        bind_seq(depth, ts, types, vars) is Some,
        has_all(vars, more),
    ensures
        bind_seq(depth, ts, types, more) == bind_seq(depth, ts, types, vars),
    decreases depth, 1nat,
{
    assert forall|i: int| 0 <= i < ts.len() implies bind(depth, #[trigger] ts[i], types, more)
        == bind(depth, ts[i], types, vars) by {
        assert(bind(depth, ts[i], types, vars) is Some);
        lemma_bind_more(depth, ts[i], types, vars, more);
    }
    assert(bind_seq(depth, ts, types, more)->0 =~= bind_seq(depth, ts, types, vars)->0);
}

/// More names leave those that were given, and each is of a variable of its own.
pub proof fn lemma_missing_names(
    n: nat,
    vars: Seq<TypeVariableId>,
    m: Map<usize, TypeVariableId>,
    c: Cache,
)
    requires
        n <= vars.len(),
    ensures
        ({
            let (m1, c1) = missing_names(n, vars, m, c);
            &&& c1.definition_infos == c.definition_infos
            &&& forall|k: usize| #[trigger]
                m.contains_key(k) ==> m1.contains_key(k) && m1[k] == m[k]
            &&& has_all(c.type_bindings, c1.type_bindings)
            &&& forall|i: int|
                c.type_bindings.len() <= i < c1.type_bindings.len() ==> (
                #[trigger] c1.type_bindings[i]) is Unbound
        }),
    decreases n,
{
    if n > 0 {
        lemma_missing_names((n - 1) as nat, vars, m, c);
    }
}

pub proof fn lemma_fresh_names(n: nat, vars: Seq<TypeVariableId>, c: Cache)
    requires
        n <= vars.len(),
    ensures
        ({
            let (_, c1) = fresh_names(n, vars, Map::empty(), c);
            &&& c1.definition_infos == c.definition_infos
            &&& c1.type_bindings.len() == c.type_bindings.len() + n
            &&& has_all(c.type_bindings, c1.type_bindings)
            &&& forall|i: int|
                c.type_bindings.len() <= i < c1.type_bindings.len() ==> (
                #[trigger] c1.type_bindings[i]) is Unbound
        }),
    decreases n,
{
    if n > 0 {
        lemma_fresh_names((n - 1) as nat, vars, c);
    }
}

/// Whether the variable is among the variables.
pub open spec fn is_among(k: usize, vars: Seq<TypeVariableId>) -> bool {
    exists|i: int| 0 <= i < vars.len() && (#[trigger] vars[i]).0 == k
}

/// The entries for the given variables.
pub open spec fn entries_of(mapping: Map<usize, Ty>, vars: Seq<TypeVariableId>) -> Map<usize, Ty> {
    Map::new(|k: usize| mapping.contains_key(k) && is_among(k, vars), |k: usize| mapping[k])
}

/// Whether the one constraint is the other at renamed arguments: the same trait, asked for by the
/// same use, with the same id and in the same scope.
pub open spec fn is_renamed(
    given: Constraint,
    renamed: Constraint,
    mapping: Map<usize, Ty>,
    c: Cache,
) -> bool {
    &&& renamed.required.signature.trait_id == given.required.signature.trait_id
    &&& renamed.required.signature.id == given.required.signature.id
    &&& renamed.required.callsite == given.required.callsite
    &&& renamed.scope == given.scope
    &&& bound_types(given.required.signature.args, mapping, c.type_bindings) == Some(
        renamed.required.signature.args,
    )
}

/// The use of a variable has the constraints that were given to it, each at arguments renamed as
/// the variables of the definition's type were: none is lost, and none is added. A monotype is not
/// renamed. The type of the use is that of the definition, in which the generic variables, and no
/// others, are replaced by new ones, each by one of its own.
pub proof fn law_use_is_an_instance(t: Tree, scheme: Scheme, traits: Seq<Constraint>, c: Cache)
    requires
        t is Variable,
        variable_used(t, scheme, traits, c) matches Some(o) && o.cache.type_bindings.len()
            <= usize::MAX,
    ensures
        ({
            let o = variable_used(t, scheme, traits, c)->0;
            let mapping = o.tree->mapping;
            &&& o.tree is Variable
            &&& o.result.traits.len() == traits.len()
            &&& forall|i: int|
                0 <= i < traits.len() ==> is_renamed(
                    #[trigger] traits[i],
                    o.result.traits[i],
                    mapping,
                    o.cache,
                )
            &&& match scheme {
                Scheme::Mono(typ) => o.result.typ == typ && o.result.traits == traits && mapping
                    == Map::<usize, Ty>::empty(),
                Scheme::Poly(vars, typ) => {
                    &&& bound_type(typ, entries_of(mapping, vars), o.cache.type_bindings) == Some(
                        o.result.typ,
                    )
                    &&& forall|i: int|
                        0 <= i < vars.len() ==> mapping.contains_key((#[trigger] vars[i]).0)
                            && is_new(mapping[vars[i].0], c, o.cache)
                    &&& forall|i: int, j: int|
                        0 <= i < vars.len() && 0 <= j < vars.len() && mapping[(
                        #[trigger] vars[i]).0] == mapping[(#[trigger] vars[j]).0] ==> vars[i]
                            == vars[j]
                },
            }
        }),
{
    let o = variable_used(t, scheme, traits, c)->0;
    let mapping = o.tree->mapping;
    match scheme {
        Scheme::Mono(typ) => {
            assert(o.result.traits =~= traits);
            assert forall|i: int| 0 <= i < traits.len() implies is_renamed(
                #[trigger] traits[i],
                o.result.traits[i],
                mapping,
                o.cache,
            ) by {}
        },
        Scheme::Poly(vars, typ) => {
            let (m1, c1) = fresh_names(vars.len(), vars, Map::empty(), c);
            let found = vars_in_constraints(traits.len(), traits, c1)->0;
            let (m2, c2) = missing_names(found.len(), found, m1, c1);
            lemma_fresh_names(vars.len(), vars, c);
            lemma_missing_names(found.len(), found, m1, c1);
            law_fresh_names(vars.len(), vars, c);
            assert(has_all(c1.type_bindings, o.cache.type_bindings)) by {
                assert forall|i: int| 0 <= i < c1.type_bindings.len() implies
                    #[trigger] o.cache.type_bindings[i] == c1.type_bindings[i] by {
                    assert(c2.type_bindings[i] == c1.type_bindings[i]);
                }
            }
            assert(has_all(c2.type_bindings, o.cache.type_bindings));
            assert(entries_of(mapping, vars) =~= renaming(m1)) by {
                assert forall|k: usize| #[trigger] m1.contains_key(k) <==> m2.contains_key(k)
                    && is_among(k, vars) by {
                    assert(m1.contains_key(k) <==> is_among(k, vars));
                }
            }
            if renaming(m1) != Map::<usize, Ty>::empty() {
                lemma_bind_more(
                    MAX_DEPTH as nat,
                    typ,
                    renaming(m1),
                    c1.type_bindings,
                    o.cache.type_bindings,
                );
            }
            assert forall|i: int| 0 <= i < traits.len() implies is_renamed(
                #[trigger] traits[i],
                o.result.traits[i],
                mapping,
                o.cache,
            ) by {
                let args = traits[i].required.signature.args;
                assert(bound_types(args, mapping, c2.type_bindings) is Some);
                if mapping != Map::<usize, Ty>::empty() {
                    lemma_bind_seq_more(
                        MAX_DEPTH as nat,
                        args,
                        mapping,
                        c2.type_bindings,
                        o.cache.type_bindings,
                    );
                }
            }
            assert forall|i: int| 0 <= i < vars.len() implies mapping.contains_key(
                (#[trigger] vars[i]).0,
            ) && is_new(mapping[vars[i].0], c, o.cache) && m1.contains_key(vars[i].0)
                && mapping[vars[i].0] == Ty::Variable(m1[vars[i].0]) by {
                let k = vars[i].0;
                assert(is_among(k, vars));
                assert(m1.contains_key(k));
                assert(m2.contains_key(k) && m2[k] == m1[k]);
                let v = m1[k];
                assert(c1.type_bindings[v.0 as int] is Unbound);
                assert(o.cache.type_bindings[v.0 as int] == c1.type_bindings[v.0 as int]);
            }
            assert forall|i: int, j: int|
                0 <= i < vars.len() && 0 <= j < vars.len() && mapping[(
                #[trigger] vars[i]).0] == mapping[(#[trigger] vars[j]).0] implies vars[i]
                == vars[j] by {
                assert(m1[vars[i].0] == m1[vars[j].0]);
            }
        },
    }
}

/// Whether the constraint asks for the trait at the arguments, where the given use is.
pub open spec fn asks_for(t: Tree, constraint: Constraint, required: Required) -> bool {
    &&& constraint.required.signature.trait_id == required.signature.trait_id
    &&& constraint.required.signature.args == required.signature.args
    &&& constraint.required.callsite == Origin::Indirect(
        t->Variable_id->0,
        seq![required.signature.id],
    )
    &&& Some(constraint.scope) == t->impl_scope
}

/// A variable whose type is known has that type, and a constraint for each trait that its
/// definition requires; one that is a member of a trait has one for that trait as well. There are
/// no others, and all have new ids, different from each other.
pub proof fn law_lookup_gives_all_constraints(t: Tree, id: DefinitionInfoId, c: Cache)
    requires
        t is Variable,
        t->definition == Some(id),
        id.0 < c.definition_infos.len(),
        c.definition_infos[id.0 as int].typ is Some,
        looked_up(t, c) is Some,
    ensures
        ({
            let info = c.definition_infos[id.0 as int];
            let n = info.required_traits.len();
            looked_up(t, c) matches Some(Looked::Known(scheme, traits, c1)) && {
                &&& info.typ == Some(scheme)
                &&& traits.len() == n + if info.trait_info is Some {
                    1int
                } else {
                    0int
                }
                &&& forall|i: int|
                    0 <= i < n ==> asks_for(t, traits[i], #[trigger] info.required_traits[i])
                &&& info.trait_info matches Some((trait_id, args)) ==> {
                    let own = traits[n as int];
                    &&& own.required.signature.trait_id == trait_id
                    &&& own.required.signature.args == args
                    &&& own.required.callsite == Origin::Direct(t->Variable_id->0)
                    &&& Some(own.scope) == t->impl_scope
                }
                &&& forall|i: int|
                    0 <= i < traits.len() ==> c.next_constraint <= (
                    #[trigger] traits[i]).required.signature.id.0 < c1.next_constraint
                &&& forall|i: int, j: int|
                    0 <= i < j < traits.len() ==> (#[trigger] traits[i]).required.signature.id != (
                    #[trigger] traits[j]).required.signature.id
            }
        }),
{
}

/// A variable whose type is not known, and whose definition there is nothing to infer of, gets a
/// new variable as its type, which its definition has from there on. One whose definition can be
/// inferred is left for that.
pub proof fn law_unknown_variable_gets_a_type(t: Tree, id: DefinitionInfoId, c: Cache)
    requires
        t is Variable,
        t->definition == Some(id),
        t->impl_scope is Some,
        t->Variable_id is Some,
        id.0 < c.definition_infos.len(),
        c.definition_infos[id.0 as int].typ is None,
        c.type_bindings.len() < usize::MAX,
    ensures
        c.definition_infos[id.0 as int].definition is Some ==> (looked_up(t, c) matches Some(
            Looked::Nested(own, scope, callsite),
        ) && own == id && Some(scope) == t->impl_scope && Some(callsite) == t->Variable_id),
        c.definition_infos[id.0 as int].definition is None ==> (looked_up(t, c) matches Some(
            Looked::Known(Scheme::Mono(typ), traits, c1),
        ) && is_new(typ, c, c1) && traits.len() == 0
            && c1.definition_infos[id.0 as int].typ == Some(Scheme::Mono(typ)) && forall|i: int|
            0 <= i < c.definition_infos.len() && i != id.0 ==> #[trigger] c1.definition_infos[i]
                == c.definition_infos[i]),
{
}

} // verus!
