//! What the variables are that replacing makes: each one stands for a variable that there was, and
//! no variable that there was is left in the result.

use crate::cache::{lookup, Binding, Cache};
use crate::subst::{extend_row, replace, replace_seq, replace_variable};
use crate::subst_laws::{
    fits, grew_fresh, lemma_replace_grows, lemma_replace_seq_grows, lemma_replace_variable_grows,
    lemma_replace_variable_is_fresh,
};
use crate::types::{Ty, TypeVariableId};
use vstd::prelude::*;

verus! {

/// Whether all variables that the type itself holds are in the set, those that extend rows too.
pub open spec fn ids_in(t: Ty, ok: Set<usize>) -> bool
    decreases t,
{
    match t {
        Ty::Variable(v) => ok.contains(v.0),
        Ty::NamedGeneric(v, _) => ok.contains(v.0),
        Ty::Function { parameters, return_type, environment, effects, has_varargs } => {
            &&& forall|i: int| 0 <= i < parameters.len() ==> ids_in(#[trigger] parameters[i], ok)
            &&& ids_in(*return_type, ok)
            &&& ids_in(*environment, ok)
            &&& ids_in(*effects, ok)
        },
        Ty::Application(constructor, args) => {
            &&& ids_in(*constructor, ok)
            &&& forall|i: int| 0 <= i < args.len() ==> ids_in(#[trigger] args[i], ok)
        },
        Ty::Ref { sharedness, mutability, lifetime } => {
            &&& ids_in(*sharedness, ok)
            &&& ids_in(*mutability, ok)
            &&& ids_in(*lifetime, ok)
        },
        Ty::Struct(_, fields, rest) => {
            &&& ok.contains(rest.0)
            &&& forall|i: int| 0 <= i < fields.len() ==> ids_in(#[trigger] fields[i], ok)
        },
        Ty::Effect(_, args) => forall|i: int|
            0 <= i < args.len() ==> ids_in(#[trigger] args[i], ok),
        Ty::Effects(effects, extension) => {
            &&& forall|i: int| 0 <= i < effects.len() ==> ids_in(#[trigger] effects[i], ok)
            &&& extension matches Some(v) ==> ok.contains(v.0)
        },
        _ => true,
    }
}

/// Whether all variables that the types themselves hold are in the set.
pub open spec fn all_ids_in(ts: Seq<Ty>, ok: Set<usize>) -> bool {
    forall|i: int| 0 <= i < ts.len() ==> ids_in(#[trigger] ts[i], ok)
}

/// The variables from the first number on and below the second.
pub open spec fn ids_between(low: nat, high: nat) -> Set<usize> {
    Set::new(|k: usize| low <= k < high)
}

/// Whether all types that the first `n` variables are bound to hold only such variables.
pub open spec fn is_closed(n: nat, c: Cache) -> bool {
    forall|i: int|
        0 <= i < n && i < c.type_bindings.len() && (#[trigger] c.type_bindings[i]) is Bound
            ==> ids_in(c.type_bindings[i]->Bound_0, ids_between(0, n))
}

/// Whether each binding that was added to the given ones is of one of the first `n` variables, and
/// each further variable is what one of them was bound to.
pub open spec fn is_renewal(
    n: nat,
    given: Map<usize, Ty>,
    types: Map<usize, Ty>,
    c: Cache,
) -> bool {
    &&& n <= c.type_bindings.len()
    &&& forall|k: usize| #[trigger]
        given.contains_key(k) ==> types.contains_key(k) && types[k] == given[k]
    &&& forall|k: usize| #[trigger]
        types.contains_key(k) && !given.contains_key(k) ==> k < n && types[k] is Variable && n
            <= types[k]->Variable_0.0 < c.type_bindings.len()
    &&& forall|i: usize|
        n <= i < c.type_bindings.len() ==> #[trigger] is_value(TypeVariableId(i), given, types)
}

/// Whether the variable is what a binding that was added to the given ones is to.
pub open spec fn is_value(
    v: TypeVariableId,
    given: Map<usize, Ty>,
    types: Map<usize, Ty>,
) -> bool {
    exists|k: usize| #[trigger]
        types.contains_key(k) && !given.contains_key(k) && types[k] == Ty::Variable(v)
}

/// Where replacing begins: the first `n` variables hold only each other, what the given bindings
/// hold is allowed, and so are all variables that are made.
pub open spec fn may_renew(
    n: nat,
    given: Map<usize, Ty>,
    ok: Set<usize>,
    types: Map<usize, Ty>,
    c: Cache,
    last: Cache,
) -> bool {
    &&& is_renewal(n, given, types, c)
    &&& is_closed(n, c)
    &&& forall|k: usize| #[trigger] given.contains_key(k) ==> ids_in(given[k], ok)
    &&& c.type_bindings.len() <= last.type_bindings.len() <= usize::MAX
    &&& forall|k: usize| n <= k < last.type_bindings.len() ==> ok.contains(k)
}

proof fn lemma_closed_still(
    n: nat,
    types: Map<usize, Ty>,
    c: Cache,
    types1: Map<usize, Ty>,
    c1: Cache,
)
    requires
        n <= c.type_bindings.len(),
        is_closed(n, c),
        grew_fresh(types, c, types1, c1),
    ensures
        is_closed(n, c1),
{
    assert forall|i: int|
        0 <= i < n && i < c1.type_bindings.len() && (
        #[trigger] c1.type_bindings[i]) is Bound implies ids_in(
        c1.type_bindings[i]->Bound_0,
        ids_between(0, n),
    ) by {
        assert(c1.type_bindings[i] == c.type_bindings[i]);
    }
}

proof fn lemma_renews(
    depth: nat,
    t: Ty,
    n: nat,
    given: Map<usize, Ty>,
    ok: Set<usize>,
    types: Map<usize, Ty>,
    c: Cache,
    last: Cache,
)
    requires
        replace(depth, t, types, c) matches Some(done) && done.2.type_bindings.len()
            <= last.type_bindings.len(),
        ids_in(t, ids_between(0, n)),
        may_renew(n, given, ok, types, c, last),
    ensures
        ({
            let (r, m, c1) = replace(depth, t, types, c)->0;
            ids_in(r, ok) && may_renew(n, given, ok, m, c1, last)
        }),
    decreases depth, 0nat, 0nat,
{
    let d = (depth - 1) as nat;
    match t {
        Ty::Variable(id) | Ty::NamedGeneric(id, _) => {
            lemma_variable_renews(d, id, n, given, ok, types, c, last);
        },
        Ty::Function { parameters, return_type, environment, effects, .. } => {
            let (_, m1, c1) = replace_seq(d, parameters, types, c)->0;
            let (_, m2, c2) = replace(d, *return_type, m1, c1)->0;
            let (_, m3, c3) = replace(d, *environment, m2, c2)->0;
            lemma_replace_grows(d, *effects, m3, c3);
            lemma_replace_grows(d, *environment, m2, c2);
            lemma_replace_grows(d, *return_type, m1, c1);
            lemma_all_renew(d, parameters, n, given, ok, types, c, last);
            lemma_renews(d, *return_type, n, given, ok, m1, c1, last);
            lemma_renews(d, *environment, n, given, ok, m2, c2, last);
            lemma_renews(d, *effects, n, given, ok, m3, c3, last);
        },
        Ty::Ref { sharedness, mutability, lifetime } => {
            let (_, m1, c1) = replace(d, *mutability, types, c)->0;
            let (_, m2, c2) = replace(d, *sharedness, m1, c1)->0;
            lemma_replace_grows(d, *lifetime, m2, c2);
            lemma_replace_grows(d, *sharedness, m1, c1);
            lemma_renews(d, *mutability, n, given, ok, types, c, last);
            lemma_renews(d, *sharedness, n, given, ok, m1, c1, last);
            lemma_renews(d, *lifetime, n, given, ok, m2, c2, last);
        },
        Ty::Application(constructor, args) => {
            let (_, m1, c1) = replace(d, *constructor, types, c)->0;
            lemma_replace_seq_grows(d, args, m1, c1);
            lemma_renews(d, *constructor, n, given, ok, types, c, last);
            lemma_all_renew(d, args, n, given, ok, m1, c1, last);
        },
        Ty::Struct(_, fields, rest) => {
            match lookup(c.type_bindings, rest) {
                Some(Binding::Bound(b)) => {
                    assert(c.type_bindings[rest.0 as int] is Bound);
                    lemma_renews(d, b, n, given, ok, types, c, last);
                },
                _ => {
                    let (x, m1, c1) = replace_variable(d, rest, types, c)->0;
                    if x is Variable {
                        lemma_replace_seq_grows(d, fields, m1, c1);
                        lemma_variable_renews(d, rest, n, given, ok, types, c, last);
                        lemma_all_renew(d, fields, n, given, ok, m1, c1, last);
                    } else {
                        lemma_variable_renews(d, rest, n, given, ok, types, c, last);
                    }
                },
            }
        },
        Ty::Effect(_, args) => lemma_all_renew(d, args, n, given, ok, types, c, last),
        Ty::Effects(effects, extension) => {
            let (e, m1, c1) = replace_seq(d, effects, types, c)->0;
            if let Some(id) = extension {
                lemma_replace_variable_grows(d, id, m1, c1);
                lemma_all_renew(d, effects, n, given, ok, types, c, last);
                lemma_variable_renews(d, id, n, given, ok, m1, c1, last);
                let (x, _, _) = replace_variable(d, id, m1, c1)->0;
                lemma_extended_ids(e, x, ok);
            } else {
                lemma_all_renew(d, effects, n, given, ok, types, c, last);
            }
        },
        _ => {},
    }
}

proof fn lemma_extended_ids(effects: Seq<Ty>, extension: Ty, ok: Set<usize>)
    requires
        all_ids_in(effects, ok),
        ids_in(extension, ok),
    ensures
        extend_row(effects, extension) matches Some(row) ==> ids_in(row, ok),
{
    if let Ty::Effects(more, _) = extension {
        assert forall|i: int| 0 <= i < (effects + more).len() implies ids_in(
            #[trigger] (effects + more)[i],
            ok,
        ) by {
            if i < effects.len() {
                assert((effects + more)[i] == effects[i]);
            } else {
                assert((effects + more)[i] == more[i - effects.len()]);
            }
        }
    }
}

proof fn lemma_all_renew(
    depth: nat,
    ts: Seq<Ty>,
    n: nat,
    given: Map<usize, Ty>,
    ok: Set<usize>,
    types: Map<usize, Ty>,
    c: Cache,
    last: Cache,
)
    requires
        replace_seq(depth, ts, types, c) matches Some(done) && done.2.type_bindings.len()
            <= last.type_bindings.len(),
        all_ids_in(ts, ids_between(0, n)),
        may_renew(n, given, ok, types, c, last),
    ensures
        ({
            let (rs, m, c1) = replace_seq(depth, ts, types, c)->0;
            all_ids_in(rs, ok) && may_renew(n, given, ok, m, c1, last)
        }),
    decreases depth, 1nat, ts.len(),
{
    if ts.len() > 0 {
        let rest = ts.skip(1);
        let (r, m1, c1) = replace(depth, ts[0], types, c)->0;
        let (more, _, _) = replace_seq(depth, rest, m1, c1)->0;
        lemma_replace_seq_grows(depth, rest, m1, c1);
        lemma_renews(depth, ts[0], n, given, ok, types, c, last);
        assert forall|i: int| 0 <= i < rest.len() implies ids_in(
            #[trigger] rest[i],
            ids_between(0, n),
        ) by {
            assert(rest[i] == ts[i + 1]);
        }
        lemma_all_renew(depth, rest, n, given, ok, m1, c1, last);
        let rs = seq![r] + more;
        assert forall|i: int| 0 <= i < rs.len() implies ids_in(#[trigger] rs[i], ok) by {
            if i > 0 {
                assert(rs[i] == more[i - 1]);
            }
        }
    }
}

proof fn lemma_variable_renews(
    depth: nat,
    v: TypeVariableId,
    n: nat,
    given: Map<usize, Ty>,
    ok: Set<usize>,
    types: Map<usize, Ty>,
    c: Cache,
    last: Cache,
)
    requires
        replace_variable(depth, v, types, c) matches Some(done) && done.2.type_bindings.len()
            <= last.type_bindings.len(),
        v.0 < n,
        may_renew(n, given, ok, types, c, last),
    ensures
        ({
            let (r, m, c1) = replace_variable(depth, v, types, c)->0;
            ids_in(r, ok) && may_renew(n, given, ok, m, c1, last)
        }),
    decreases depth, 1nat, 0nat,
{
    let (r, m, c1) = replace_variable(depth, v, types, c)->0;
    match lookup(c.type_bindings, v) {
        Some(Binding::Bound(b)) => {
            assert(c.type_bindings[v.0 as int] is Bound);
            lemma_renews(depth, b, n, given, ok, types, c, last);
        },
        _ => {
            if types.contains_key(v.0) {
                if given.contains_key(v.0) {
                    assert(types[v.0] == given[v.0]);
                }
            } else {
                lemma_replace_variable_is_fresh(depth, v, types, c);
                lemma_closed_still(n, types, c, m, c1);
                let fresh = c.next_id();
                assert(!given.contains_key(v.0));
                assert forall|i: usize| n <= i < c1.type_bindings.len() implies #[trigger] is_value(
                    TypeVariableId(i),
                    given,
                    m,
                ) by {
                    if i < c.type_bindings.len() {
                        assert(is_value(TypeVariableId(i), given, types));
                        let k = choose|k: usize| #[trigger]
                            types.contains_key(k) && !given.contains_key(k) && types[k]
                                == Ty::Variable(TypeVariableId(i));
                        assert(m.contains_key(k) && m[k] == types[k]);
                    } else {
                        assert(TypeVariableId(i) == fresh);
                        assert(m.contains_key(v.0) && m[v.0] == Ty::Variable(fresh));
                    }
                }
            }
        },
    }
}

/// What replacing all the variables of a type renews, where all variables in sight are in the
/// cache. Each variable that it binds was in the cache before. Each variable that it makes is what
/// one of those is bound to. And every variable of the result is one that it makes, or one of
/// those that stand in what the given bindings hold: no other variable is left.
pub proof fn law_replace_renews(
    depth: nat,
    t: Ty,
    given: Map<usize, Ty>,
    c: Cache,
    known: Set<usize>,
)
    requires
        replace(depth, t, given, c) is Some,
        fits(replace(depth, t, given, c)->0),
        ids_in(t, ids_between(0, c.type_bindings.len())),
        is_closed(c.type_bindings.len(), c),
        forall|k: usize| #[trigger] given.contains_key(k) ==> ids_in(given[k], known),
    ensures
        ({
            let n = c.type_bindings.len();
            let (r, m, c1) = replace(depth, t, given, c)->0;
            &&& ids_in(r, known.union(ids_between(n, c1.type_bindings.len())))
            &&& is_renewal(n, given, m, c1)
        }),
{
    let n = c.type_bindings.len();
    let (_, _, c1) = replace(depth, t, given, c)->0;
    let ok = known.union(ids_between(n, c1.type_bindings.len()));
    lemma_replace_grows(depth, t, given, c);
    assert forall|k: usize| #[trigger] given.contains_key(k) implies ids_in(given[k], ok) by {
        lemma_more_ids(given[k], known, ok);
    }
    lemma_renews(depth, t, n, given, ok, given, c, c1);
}

/// The same holds of replacing all the variables of several types.
pub proof fn law_replace_all_renews(
    depth: nat,
    ts: Seq<Ty>,
    given: Map<usize, Ty>,
    c: Cache,
    known: Set<usize>,
)
    requires
        replace_seq(depth, ts, given, c) is Some,
        fits(replace_seq(depth, ts, given, c)->0),
        all_ids_in(ts, ids_between(0, c.type_bindings.len())),
        is_closed(c.type_bindings.len(), c),
        forall|k: usize| #[trigger] given.contains_key(k) ==> ids_in(given[k], known),
    ensures
        ({
            let n = c.type_bindings.len();
            let (rs, m, c1) = replace_seq(depth, ts, given, c)->0;
            &&& all_ids_in(rs, known.union(ids_between(n, c1.type_bindings.len())))
            &&& is_renewal(n, given, m, c1)
        }),
{
    let n = c.type_bindings.len();
    let (_, _, c1) = replace_seq(depth, ts, given, c)->0;
    let ok = known.union(ids_between(n, c1.type_bindings.len()));
    lemma_replace_seq_grows(depth, ts, given, c);
    assert forall|k: usize| #[trigger] given.contains_key(k) implies ids_in(given[k], ok) by {
        lemma_more_ids(given[k], known, ok);
    }
    lemma_all_renew(depth, ts, n, given, ok, given, c, c1);
}

/// Where no bindings are given, replacing all the variables of several types leaves new variables
/// alone in them.
pub proof fn law_replaced_are_new(depth: nat, ts: Seq<Ty>, c: Cache)
    requires
        replace_seq(depth, ts, Map::empty(), c) is Some,
        fits(replace_seq(depth, ts, Map::empty(), c)->0),
        all_ids_in(ts, ids_between(0, c.type_bindings.len())),
        is_closed(c.type_bindings.len(), c),
    ensures
        ({
            let n = c.type_bindings.len();
            let (rs, _, c1) = replace_seq(depth, ts, Map::empty(), c)->0;
            all_ids_in(rs, ids_between(n, c1.type_bindings.len()))
        }),
{
    let n = c.type_bindings.len();
    let (_, _, c1) = replace_seq(depth, ts, Map::empty(), c)->0;
    let new = ids_between(n, c1.type_bindings.len());
    law_replace_all_renews(depth, ts, Map::empty(), c, Set::empty());
    assert(Set::<usize>::empty().union(new) =~= new);
}

/// A larger set holds the variables of a type as well.
proof fn lemma_more_ids(t: Ty, few: Set<usize>, more: Set<usize>)
    requires
        ids_in(t, few),
        few.subset_of(more),
    ensures
        ids_in(t, more),
    decreases t,
{
    match t {
        Ty::Function { parameters, return_type, environment, effects, .. } => {
            lemma_all_more_ids(parameters, few, more);
            lemma_more_ids(*return_type, few, more);
            lemma_more_ids(*environment, few, more);
            lemma_more_ids(*effects, few, more);
        },
        Ty::Application(constructor, args) => {
            lemma_more_ids(*constructor, few, more);
            lemma_all_more_ids(args, few, more);
        },
        Ty::Ref { sharedness, mutability, lifetime } => {
            lemma_more_ids(*sharedness, few, more);
            lemma_more_ids(*mutability, few, more);
            lemma_more_ids(*lifetime, few, more);
        },
        Ty::Struct(_, fields, _) => lemma_all_more_ids(fields, few, more),
        Ty::Effect(_, args) => lemma_all_more_ids(args, few, more),
        Ty::Effects(effects, _) => lemma_all_more_ids(effects, few, more),
        _ => {},
    }
}

proof fn lemma_all_more_ids(ts: Seq<Ty>, few: Set<usize>, more: Set<usize>)
    requires
        all_ids_in(ts, few),
        few.subset_of(more),
    ensures
        all_ids_in(ts, more),
    decreases ts,
{
    assert forall|i: int| 0 <= i < ts.len() implies ids_in(#[trigger] ts[i], more) by {
        lemma_more_ids(ts[i], few, more);
    }
}

} // verus!
