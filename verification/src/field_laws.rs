//! What accesses to fields are for: the field has the type it was declared with, what has no such
//! field is reported, and nothing is mutated through an immutable reference.

use crate::access::{
    assigned, field_found, place_inside, references_inferred, row_with, Assignment, MemberAccess,
};
use crate::access_laws::{
    assigned_type, is_mutable_or_reported, lemma_checked, lemma_last_reference,
};
use crate::accord::{
    head, heads_fit, lemma_keeps_grow, lemma_perform_length, lemma_stay_grow, lemma_unified_heads,
    stands_for,
};
use crate::agreement::{committed, grows, hop, lemma_commit_hops};
use crate::cache::{lookup, Binding, Cache, InfoBody, Location, Reason};
use crate::inference_laws::{
    lemma_assigned, lemma_field_found, lemma_inferred, lemma_mutable_ref, lemma_place,
    lemma_reference_to, lemma_references, lemma_results, only_goes_on,
};
use crate::instantiate::{reference_to, Mutability};
use crate::progress::{
    goes_on, law_goes_on_further, law_unification_goes_on, law_unify_goes_on, lemma_fresh_goes_on,
    lemma_perform_goes_on,
};
use crate::resolve::{follow, MAX_DEPTH};
use crate::results::combined_results;
use crate::row_laws::law_insert_get;
use crate::rows::{find_name, Row};
use crate::rule_laws::{
    carries, is_part, lemma_carries_itself, lemma_noted, lemma_only_part, lemma_part_still, noted,
    reports_nothing,
};
use crate::rules::{at_one, follow_in, mutable_ref, place_checked, Place};
use crate::solve::fresh_unification;
use crate::tree::{inferred, Expression, Inferable, Tree};
use crate::types::{Ty, TypeTag, TypeVariableId};
use crate::unify::{
    collect_row, fields_of, succeeded, unified, unify_row_with, unify_subset, unify_types,
    unify_variable, State,
};
use crate::unify_laws::{is_proper, law_unify_keeps};
use vstd::prelude::*;

verus! {

/// Whether the type stands for the other, which stands for nothing else.
pub open spec fn leads_to(t: Ty, g: Ty, c: Cache) -> bool {
    exists|i: nat| #[trigger] head(i, t, committed(c)) == Some(g)
}

/// Whether the type stands for the constructor of immutable references.
pub open spec fn is_immutable(constructor: Ty, c: Cache) -> bool {
    exists|g: Ty| #[trigger]
        leads_to(constructor, g, c) && g is Ref && leads_to(
            *g->mutability,
            Ty::Tag(TypeTag::Immutable),
            c,
        )
}

/// Whether the type stands for an immutable reference.
pub open spec fn is_immutable_reference(t: Ty, c: Cache) -> bool {
    exists|g: Ty| #[trigger]
        leads_to(t, g, c) && g is Application && is_immutable(*g->Application_0, c)
}

/// What a chain of bindings leads to, it still leads to in every later cache.
proof fn lemma_still_leads(i: nat, t: Ty, s: State, r: State)
    requires
        grows(s, r),
        head(i, t, s) matches Some(g) && !(g is Variable) && !(g is NamedGeneric),
    ensures
        head(i, t, r) == head(i, t, s),
    decreases i,
{
    if let Some(t1) = stands_for(t, s) {
        assert(stands_for(t, r) == Some(t1));
        lemma_still_leads((i - 1) as nat, t1, s, r);
    }
}

proof fn lemma_immutable_still(t: Ty, c: Cache, end: Cache)
    requires
        is_immutable_reference(t, c),
        grows(committed(c), committed(end)),
    ensures
        is_immutable_reference(t, end),
{
    let g = choose|g: Ty| #[trigger]
        leads_to(t, g, c) && g is Application && is_immutable(*g->Application_0, c);
    let i = choose|i: nat| #[trigger] head(i, t, committed(c)) == Some(g);
    lemma_still_leads(i, t, committed(c), committed(end));
    let f = *g->Application_0;
    let h = choose|h: Ty| #[trigger]
        leads_to(f, h, c) && h is Ref && leads_to(*h->mutability, Ty::Tag(TypeTag::Immutable), c);
    let j = choose|j: nat| #[trigger] head(j, f, committed(c)) == Some(h);
    lemma_still_leads(j, f, committed(c), committed(end));
    let m = *h->mutability;
    let tag = Ty::Tag(TypeTag::Immutable);
    let k = choose|k: nat| #[trigger] head(k, m, committed(c)) == Some(tag);
    lemma_still_leads(k, m, committed(c), committed(end));
    assert(leads_to(m, tag, end));
    assert(leads_to(f, h, end));
    assert(leads_to(t, g, end));
}

proof fn lemma_tag_differs(depth: nat, k: nat, m: Ty, c: Cache, s: State)
    requires
        head(k, m, committed(c)) == Some(Ty::Tag(TypeTag::Immutable)),
        grows(committed(c), s),
    ensures
        !succeeded(unify_types(depth, m, Ty::Tag(TypeTag::Mutable), s)),
    decreases k,
{
    let b = Ty::Tag(TypeTag::Mutable);
    if depth > 1 {
        let d = (depth - 1) as nat;
        match m {
            Ty::Variable(id) => {
                let t = stands_for(m, committed(c))->0;
                assert(s.binding_of(id) == Some(Binding::Bound(t)));
                assert(unify_types(depth, m, b, s) == unify_variable(d, id, m, b, true, s));
                lemma_tag_differs(d, (k - 1) as nat, t, c, s);
            },
            Ty::NamedGeneric(id, _) => {
                let t = stands_for(m, committed(c))->0;
                assert(s.binding_of(id) == Some(Binding::Bound(t)));
                lemma_tag_differs(d, (k - 1) as nat, t, c, s);
            },
            _ => {},
        }
    } else if depth == 1 {
        match m {
            Ty::Variable(id) => {
                let t = stands_for(m, committed(c))->0;
                assert(s.binding_of(id) == Some(Binding::Bound(t)));
                assert(unify_types(1, m, b, s) == unify_variable(0, id, m, b, true, s));
                assert(unify_types(0, t, b, s) is None);
            },
            Ty::NamedGeneric(id, _) => {
                let t = stands_for(m, committed(c))->0;
                assert(s.binding_of(id) == Some(Binding::Bound(t)));
                assert(unify_types(0, t, b, s) is None);
            },
            _ => {},
        }
    }
}

/// The constructor of immutable references does not unify with one of mutable references.
proof fn lemma_constructor_differs(depth: nat, j: nat, f: Ty, b: Ty, c: Cache, s: State)
    requires
        head(j, f, committed(c)) matches Some(g) && g is Ref && leads_to(
            *g->mutability,
            Ty::Tag(TypeTag::Immutable),
            c,
        ),
        b is Ref,
        *b->mutability == Ty::Tag(TypeTag::Mutable),
        s == committed(c),
    ensures
        !succeeded(unify_types(depth, f, b, s)),
    decreases j,
{
    if depth > 0 {
        let d = (depth - 1) as nat;
        match f {
            Ty::Variable(id) => {
                let t = stands_for(f, s)->0;
                assert(unify_types(depth, f, b, s) == unify_variable(d, id, f, b, true, s));
                lemma_constructor_differs(d, (j - 1) as nat, t, b, c, s);
            },
            Ty::NamedGeneric(_, _) => {
                let t = stands_for(f, s)->0;
                lemma_constructor_differs(d, (j - 1) as nat, t, b, c, s);
            },
            _ => {
                let tag = Ty::Tag(TypeTag::Immutable);
                let k = choose|k: nat| #[trigger] head(k, *f->mutability, s) == Some(tag);
                let first = unify_types(d, *f->sharedness, *b->sharedness, s);
                law_unify_keeps(d, *f->sharedness, *b->sharedness, s);
                assert(is_proper(s));
                if succeeded(first) {
                    lemma_keeps_grow(c, first->0.state);
                    lemma_tag_differs(d, k, *f->mutability, c, first->0.state);
                }
            },
        }
    }
}

/// An immutable reference does not unify with a mutable one.
proof fn lemma_reference_differs(depth: nat, i: nat, t: Ty, b: Ty, c: Cache)
    requires
        head(i, t, committed(c)) matches Some(g) && g is Application && is_immutable(
            *g->Application_0,
            c,
        ),
        b matches Ty::Application(f, _) && *f is Ref && *(*f)->mutability == Ty::Tag(
            TypeTag::Mutable,
        ),
    ensures
        !succeeded(unify_types(depth, t, b, committed(c))),
    decreases i,
{
    let s = committed(c);
    if depth > 0 {
        let d = (depth - 1) as nat;
        match t {
            Ty::Variable(id) => {
                let t1 = stands_for(t, s)->0;
                assert(unify_types(depth, t, b, s) == unify_variable(d, id, t, b, true, s));
                lemma_reference_differs(d, (i - 1) as nat, t1, b, c);
            },
            Ty::NamedGeneric(_, _) => {
                let t1 = stands_for(t, s)->0;
                lemma_reference_differs(d, (i - 1) as nat, t1, b, c);
            },
            _ => {
                let f = *t->Application_0;
                let h = choose|h: Ty| #[trigger]
                    leads_to(f, h, c) && h is Ref && leads_to(
                        *h->mutability,
                        Ty::Tag(TypeTag::Immutable),
                        c,
                    );
                let j = choose|j: nat| #[trigger] head(j, f, s) == Some(h);
                lemma_constructor_differs(d, j, f, *b->Application_0, c, s);
            },
        }
    }
}

/// An assignment to what is an immutable reference already is reported, unless the reference itself
/// is assigned to.
pub proof fn law_immutable_reference_is_reported<A: Expression>(t: Tree, c: Cache)
    requires
        only_goes_on::<A>(),
        t is Assignment,
        Assignment::<A>::rule(t, c) matches Some(o) && o.cache.type_bindings.len() <= usize::MAX
            && o.tree->references.len() == t->references.len() && is_immutable_reference(
            assigned_type(*o.tree->Assignment_lhs, o.tree->references, t->references.len()),
            c,
        ),
    ensures
        Assignment::<A>::rule(t, c) matches Some(o) && !reports_nothing(c, o.cache),
{
    let end = Assignment::<A>::rule(t, c)->0;
    let (lhs, rhs) = (*t->Assignment_lhs, *t->Assignment_rhs);
    let references = t->references;
    let n = references.len();
    lemma_inferred::<A>(lhs, c);
    let o1 = inferred::<A>(lhs, c)->0;
    lemma_noted(A::rule(lhs, c)->0.tree, o1.result.typ);
    let own = o1.tree.place_of();
    lemma_references(n, references, own, o1.result.typ, o1.cache);
    lemma_last_reference(n, references, own, o1.result.typ, o1.cache);
    let (done, typ, c1) = references_inferred(n, references, own, o1.result.typ, o1.cache)->0;
    law_goes_on_further(c, o1.cache, c1);
    lemma_inferred::<A>(rhs, c1);
    let o2 = inferred::<A>(rhs, c1)->0;
    let left = o1.result.with_type(typ);
    lemma_results(left, o2.result, o2.cache);
    let (joint, c2) = combined_results(left, o2.result, o2.cache)->0;
    law_goes_on_further(c, c1, o2.cache);
    law_goes_on_further(c, o2.cache, c2);
    let place = place_inside(n as int, references, own);
    let at = if n > 0 {
        references.last().location
    } else {
        o1.tree.location_of()
    };
    lemma_assigned(joint.typ, place, at, o2.result.typ, t.location_of(), c2);
    lemma_stay_grow(c, c2);
    lemma_immutable_still(typ, c, c2);
    lemma_assigned_to_immutable(joint.typ, place, at, o2.result.typ, t.location_of(), c2);
}

proof fn lemma_assigned_to_immutable(
    lhs: Ty,
    place: Place,
    lhs_location: Location,
    rhs: Ty,
    location: Location,
    c: Cache,
)
    requires
        assigned(lhs, place, lhs_location, rhs, location, c) matches Some((None, end))
            && end.type_bindings.len() <= usize::MAX,
        is_immutable_reference(lhs, c),
    ensures
        assigned(lhs, place, lhs_location, rhs, location, c) matches Some((_, end))
            && end.diagnostics.len() > c.diagnostics.len(),
{
    let (_, end) = assigned(lhs, place, lhs_location, rhs, location, c)->0;
    law_unification_goes_on(lhs, rhs, c);
    let tried = fresh_unification(lhs, rhs, c)->0.state.cache;
    lemma_mutable_ref(tried);
    let (constructor, c1) = mutable_ref(tried);
    let expected = at_one(constructor, rhs);
    law_goes_on_further(c, tried, c1);
    law_unification_goes_on(lhs, expected, c1);
    let step2 = fresh_unification(lhs, expected, c1)->0;
    let tried2 = step2.state.cache;
    law_goes_on_further(c, c1, tried2);
    let c3 = tried2.fresh(tried2.current_level);
    lemma_fresh_goes_on(tried2, tried2.current_level);
    lemma_mutable_ref(c3);
    let (constructor2, c4) = mutable_ref(c3);
    let any = at_one(constructor2, Ty::Variable(tried2.next_id()));
    law_goes_on_further(c, tried2, c3);
    law_goes_on_further(c, c3, c4);
    law_unification_goes_on(lhs, any, c4);
    law_unify_keeps(MAX_DEPTH as nat, lhs, expected, committed(c1));
    if step2.ok {
        lemma_perform_length(step2.state);
    } else {
        let step3 = fresh_unification(lhs, any, c4)->0;
        if step3.ok {
            let args = follow_in(lhs, step3.state.cache)->0->Application_1;
            let reason = Reason::AssignToWrongType;
            law_unify_goes_on(args[0], rhs, location, reason, step3.state.cache);
        }
        lemma_immutable_differs(lhs, any, c, c4);
    }
    lemma_immutable_differs(lhs, expected, c, c1);
}

proof fn lemma_immutable_differs(t: Ty, b: Ty, c: Cache, c1: Cache)
    requires
        is_immutable_reference(t, c),
        goes_on(c, c1),
        c1.type_bindings.len() <= usize::MAX,
        b matches Ty::Application(f, _) && *f is Ref && *(*f)->mutability == Ty::Tag(
            TypeTag::Mutable,
        ),
    ensures
        !succeeded(fresh_unification(t, b, c1)),
{
    lemma_stay_grow(c, c1);
    lemma_immutable_still(t, c, c1);
    let g = choose|g: Ty| #[trigger]
        leads_to(t, g, c1) && g is Application && is_immutable(*g->Application_0, c1);
    let i = choose|i: nat| #[trigger] head(i, t, committed(c1)) == Some(g);
    lemma_reference_differs(MAX_DEPTH as nat, i, t, b, c1);
}

/// Whether what begins like this has no such field. A struct type has those it was declared with.
pub open spec fn lacks_field(g: Ty, field: Seq<char>, c: Cache) -> bool {
    match g {
        Ty::Primitive(_) | Ty::Function { .. } | Ty::Tag(_) => true,
        Ty::UserDefined(id) => id.0 < c.type_infos.len() && match c.type_infos[id.0 as int].body {
            InfoBody::Union => true,
            InfoBody::Struct(names, types) => names.len() == types.len() && !names.contains(field),
            _ => false,
        },
        _ => false,
    }
}

/// Whether what begins like this is a struct type that has the field, declared with that type.
pub open spec fn declares(g: Ty, field: Seq<char>, typ: Ty, c: Cache) -> bool {
    g matches Ty::UserDefined(id) && id.0 < c.type_infos.len() && (
    c.type_infos[id.0 as int].body matches InfoBody::Struct(names, types) && names.len()
        == types.len() && exists|i: int| #[trigger]
        is_last(i, names, field) && types[i] == typ)
}

/// Whether the name stands there, and nowhere after it.
pub open spec fn is_last(i: int, names: Seq<Seq<char>>, name: Seq<char>) -> bool {
    &&& 0 <= i < names.len()
    &&& names[i] == name
    &&& forall|j: int| i < j < names.len() ==> #[trigger] names[j] != name
}

proof fn lemma_collected(n: nat, names: Seq<Seq<char>>, types: Seq<Ty>, field: Seq<char>)
    requires
        n <= names.len(),
        names.len() == types.len(),
    ensures
        collect_row(n, names, types).names.len() == collect_row(n, names, types).types.len(),
        forall|i: int| #[trigger]
            is_last(i, names.take(n as int), field) ==> collect_row(n, names, types).get(field)
                == Some(types[i]),
        !names.take(n as int).contains(field) ==> collect_row(n, names, types).get(field) is None,
    decreases n,
{
    if n > 0 {
        let k = (n - 1) as nat;
        lemma_collected(k, names, types, field);
        let before = collect_row(k, names, types);
        law_insert_get(before, names[n - 1], types[n - 1], field);
        let front = names.take(k as int);
        let all = names.take(n as int);
        assert forall|i: int| #[trigger] is_last(i, all, field) implies collect_row(
            n,
            names,
            types,
        ).get(field) == Some(types[i]) by {
            if i < k {
                assert(all[k as int] != field);
                assert forall|j: int| i < j < front.len() implies #[trigger] front[j] != field by {
                    assert(all[j] == front[j]);
                }
                assert(front[i] == all[i]);
                assert(is_last(i, front, field));
            }
        }
        if !all.contains(field) {
            assert(all[k as int] == names[n - 1]);
            if front.contains(field) {
                let j = choose|j: int| 0 <= j < front.len() && front[j] == field;
                assert(all[j] == field);
            }
        }
    } else {
        assert(find_name(Seq::<Seq<char>>::empty(), field) is None);
    }
}

/// What has no such field does not unify with a row that has it.
proof fn lemma_no_field(depth: nat, i: nat, t: Ty, row: Ty, field: Seq<char>, c: Cache)
    requires
        head(i, t, committed(c)) matches Some(g) && lacks_field(g, field, c),
        row matches Ty::Struct(names, types, rest) && names == seq![field] && types.len() == 1
            && (lookup(c.type_bindings, rest) matches Some(Binding::Unbound(_, _))),
    ensures
        !succeeded(unify_types(depth, t, row, committed(c))),
    decreases i,
{
    let s = committed(c);
    if depth > 0 {
        let d = (depth - 1) as nat;
        match t {
            Ty::Variable(id) => {
                let t1 = stands_for(t, s)->0;
                assert(unify_types(depth, t, row, s) == unify_variable(d, id, t, row, true, s));
                lemma_no_field(d, (i - 1) as nat, t1, row, field, c);
            },
            Ty::UserDefined(id) => {
                let rest = row->Struct_2;
                let fields = Row { names: row->Struct_0, types: row->Struct_1 };
                assert(unify_types(depth, t, row, s) == unify_row_with(d, fields, rest, t, s));
                if let InfoBody::Struct(names, types) = c.type_infos[id.0 as int].body {
                    lemma_collected(names.len(), names, types, field);
                    assert(names.take(names.len() as int) =~= names);
                    let template = collect_row(names.len(), names, types);
                    assert(fields_of(MAX_DEPTH as nat, t, Seq::empty(), s) == Some(Some(template)));
                    assert(fields.names[0] == field);
                    assert(!succeeded(unify_subset(d, fields, template, s)));
                }
            },
            _ => {
                let rest = row->Struct_2;
                let fields = Row { names: row->Struct_0, types: row->Struct_1 };
                assert(unify_types(depth, t, row, s) == unify_row_with(d, fields, rest, t, s));
                assert(fields_of(MAX_DEPTH as nat, t, Seq::empty(), s) == Some(None::<Row>));
            },
        }
    }
}

/// A variable that is not bound gets bound to what stands for the same as the type.
proof fn lemma_bound_to(depth: nat, k: nat, t: Ty, v: TypeVariableId, c: Cache) -> (x: Ty)
    requires
        head(k, t, committed(c)) matches Some(g) && !(g is Variable) && !(g is NamedGeneric),
        lookup(c.type_bindings, v) matches Some(Binding::Unbound(_, _)),
        succeeded(unify_types(depth, t, Ty::Variable(v), committed(c))),
    ensures
        unify_types(depth, t, Ty::Variable(v), committed(c))->0.state.solution.types
            == Map::<usize, Ty>::empty().insert(v.0, x),
        leads_to(x, head(k, t, committed(c))->0, c),
    decreases k,
{
    let s = committed(c);
    let d = (depth - 1) as nat;
    let b = Ty::Variable(v);
    match t {
        Ty::Variable(id) => {
            let t1 = stands_for(t, s)->0;
            assert(unify_types(depth, t, b, s) == unify_variable(d, id, t, b, true, s));
            lemma_bound_to(d, (k - 1) as nat, t1, v, c)
        },
        _ => {
            assert(unify_types(depth, t, b, s) == unify_variable(d, v, b, t, false, s));
            assert(follow(MAX_DEPTH as nat, t, s.solution.types, c.type_bindings) == Some(t));
            t
        },
    }
}

/// What has the field unifies with a row that has it only if the type of the field in the row
/// becomes the declared one.
proof fn lemma_has_field(
    depth: nat,
    i: nat,
    t: Ty,
    v: TypeVariableId,
    rest: TypeVariableId,
    field: Seq<char>,
    typ: Ty,
    k: nat,
    c: Cache,
) -> (x: Ty)
    requires
        head(i, t, committed(c)) matches Some(g) && declares(g, field, typ, c),
        head(k, typ, committed(c)) matches Some(g) && !(g is Variable) && !(g is NamedGeneric),
        lookup(c.type_bindings, v) matches Some(Binding::Unbound(_, _)),
        lookup(c.type_bindings, rest) matches Some(Binding::Unbound(_, _)),
        v != rest,
        succeeded(
            unify_types(depth, t, row_with(field, Ty::Variable(v), rest), committed(c)),
        ),
    ensures
        unify_types(
            depth,
            t,
            row_with(field, Ty::Variable(v), rest),
            committed(c),
        )->0.state.binding_of(v) == Some(Binding::Bound(x)),
        leads_to(x, head(k, typ, committed(c))->0, c),
    decreases i,
{
    let s = committed(c);
    let d = (depth - 1) as nat;
    let row = row_with(field, Ty::Variable(v), rest);
    match t {
        Ty::Variable(id) => {
            let t1 = stands_for(t, s)->0;
            assert(unify_types(depth, t, row, s) == unify_variable(d, id, t, row, true, s));
            assert(unify_types(depth, t, row, s) == unify_types(d, t1, row, s));
            lemma_has_field(d, (i - 1) as nat, t1, v, rest, field, typ, k, c)
        },
        Ty::UserDefined(id) => {
            let (names, types) = match c.type_infos[id.0 as int].body {
                InfoBody::Struct(names, types) => (names, types),
                _ => arbitrary(),
            };
            let at = choose|at: int| #[trigger] is_last(at, names, field) && types[at] == typ;
            lemma_collected(names.len(), names, types, field);
            assert(names.take(names.len() as int) =~= names);
            let template = collect_row(names.len(), names, types);
            let fields = Row { names: seq![field], types: seq![Ty::Variable(v)] };
            assert(template.get(fields.names[0]) == Some(typ));
            let others = Row { names: fields.names.skip(1), types: fields.types.skip(1) };
            let first = unify_types(d, typ, Ty::Variable(v), s);
            assert(unify_types(depth, t, row, s) == unify_row_with(d, fields, rest, t, s));
            assert(fields_of(MAX_DEPTH as nat, t, Seq::empty(), s) == Some(Some(template)));
            assert(succeeded(unify_subset(d, fields, template, s)));
            assert(fields.types[0] == Ty::Variable(v));
            assert(succeeded(first));
            assert(unify_subset(d, others, template, first->0.state) == unified(
                first->0.state,
            ));
            let x = lemma_bound_to(d, k, typ, v, c);
            law_unify_keeps(MAX_DEPTH as nat, t, row, s);
            law_unify_keeps(d, typ, Ty::Variable(v), s);
            x
        },
        _ => {
            let fields = Row { names: seq![field], types: seq![Ty::Variable(v)] };
            assert(unify_types(depth, t, row, s) == unify_row_with(d, fields, rest, t, s));
            assert(fields_of(MAX_DEPTH as nat, t, Seq::empty(), s) == Some(None::<Row>));
            t
        },
    }
}

/// Whether the type is that of an access to a field of type `f`: that type, or one of references to
/// it, as mutable as was asked for.
pub open spec fn is_accessed(t: Ty, offset: Option<Mutability>, f: Ty) -> bool {
    match offset {
        None => t == f,
        Some(wanted) => t matches Ty::Application(constructor, args) && args == seq![f] && (
        *constructor matches Ty::Ref { mutability, .. } && match wanted {
            Mutability::Mutable => *mutability == Ty::Tag(TypeTag::Mutable),
            Mutability::Immutable => *mutability == Ty::Tag(TypeTag::Immutable),
            Mutability::Polymorphic => *mutability is Variable,
        }),
    }
}

/// Whether the type that a field was found to have is the declared one, and the place that it is in
/// is mutable if it is referred to mutably.
pub open spec fn is_as_declared(
    place: Place,
    g: Ty,
    field: Seq<char>,
    offset: Option<Mutability>,
    f: Ty,
    before: Cache,
    end: Cache,
) -> bool {
    &&& forall|typ: Ty, h: Ty|
        declares(g, field, typ, before) && (#[trigger] leads_to(typ, h, before)) && !(h is Variable)
            && !(h is NamedGeneric) ==> leads_to(f, h, end)
    &&& offset == Some(Mutability::Mutable) ==> is_mutable_or_reported(place, false, before, end)
}

proof fn lemma_follow_reference(depth: nat, j: nat, f: Ty, c: Cache)
    requires
        head(j, f, committed(c)) matches Some(g) && g is Ref,
    ensures
        follow(depth, f, Map::empty(), c.type_bindings) matches Some(x) ==> x is Ref
            || x is NamedGeneric,
    decreases j,
{
    let s = committed(c);
    if let Ty::Variable(id) = f {
        let t = stands_for(f, s)->0;
        if depth > 0 {
            lemma_follow_reference((depth - 1) as nat, (j - 1) as nat, t, c);
        }
    }
}

/// A reference has no fields itself.
proof fn lemma_reference_has_no_field(depth: nat, i: nat, t: Ty, row: Ty, c: Cache)
    requires
        head(i, t, committed(c)) matches Some(g) && g is Application && is_immutable(
            *g->Application_0,
            c,
        ),
        row matches Ty::Struct(names, types, rest) && (lookup(c.type_bindings, rest) matches Some(
            Binding::Unbound(_, _),
        )),
    ensures
        !succeeded(unify_types(depth, t, row, committed(c))),
    decreases i,
{
    let s = committed(c);
    if depth > 0 {
        let d = (depth - 1) as nat;
        let rest = row->Struct_2;
        let fields = Row { names: row->Struct_0, types: row->Struct_1 };
        match t {
            Ty::Variable(id) => {
                let t1 = stands_for(t, s)->0;
                assert(unify_types(depth, t, row, s) == unify_variable(d, id, t, row, true, s));
                lemma_reference_has_no_field(d, (i - 1) as nat, t1, row, c);
            },
            Ty::Application(f, _) => {
                let h = choose|h: Ty| #[trigger]
                    leads_to(*f, h, c) && h is Ref && leads_to(
                        *h->mutability,
                        Ty::Tag(TypeTag::Immutable),
                        c,
                    );
                let j = choose|j: nat| #[trigger] head(j, *f, s) == Some(h);
                lemma_follow_reference(MAX_DEPTH as nat, j, *f, c);
                assert(unify_types(depth, t, row, s) == unify_row_with(d, fields, rest, t, s));
                reveal_with_fuel(fields_of, 2);
                assert(!(fields_of(MAX_DEPTH as nat, t, Seq::empty(), s) matches Some(Some(_))));
            },
            _ => {
                assert(unify_types(depth, t, row, s) == unify_row_with(d, fields, rest, t, s));
                assert(fields_of(MAX_DEPTH as nat, t, Seq::empty(), s) == Some(None::<Row>));
            },
        }
    }
}

/// A value that begins like this is no reference.
proof fn lemma_no_reference(t: Ty, g: Ty, mutability: Mutability, row: Ty, c: Cache, tried: Cache)
    requires
        leads_to(t, g, c),
        g is Primitive || g is Function || g is Tag || g is UserDefined,
        goes_on(c, tried),
        fresh_unification(t, reference_to(mutability, row, tried).0, reference_to(
            mutability,
            row,
            tried,
        ).1) matches Some(step) && step.state.cache.type_bindings.len() <= usize::MAX,
    ensures
        !succeeded(
            fresh_unification(
                t,
                reference_to(mutability, row, tried).0,
                reference_to(mutability, row, tried).1,
            ),
        ),
{
    let (b, c1) = reference_to(mutability, row, tried);
    lemma_reference_to(mutability, row, tried);
    law_goes_on_further(c, tried, c1);
    law_unification_goes_on(t, b, c1);
    law_goes_on_further(c, c1, fresh_unification(t, b, c1)->0.state.cache);
    law_unify_keeps(MAX_DEPTH as nat, t, b, committed(c1));
    assert(is_proper(committed(c1)));
    let i = choose|i: nat| #[trigger] head(i, t, committed(c)) == Some(g);
    lemma_stay_grow(c, c1);
    lemma_still_leads(i, t, committed(c), committed(c1));
    if succeeded(fresh_unification(t, b, c1)) {
        let r = fresh_unification(t, b, c1)->0.state;
        lemma_unified_heads(MAX_DEPTH as nat, t, b, c1);
        lemma_keeps_grow(c1, r);
        lemma_still_leads(i, t, committed(c1), r);
        assert(head(0, b, r) == Some(b));
        assert(heads_fit(t, b, r));
    }
}

proof fn lemma_leads_still(t: Ty, g: Ty, c: Cache, end: Cache)
    requires
        leads_to(t, g, c),
        !(g is Variable),
        !(g is NamedGeneric),
        goes_on(c, end),
        end.type_bindings.len() <= usize::MAX,
    ensures
        leads_to(t, g, end),
{
    let i = choose|i: nat| #[trigger] head(i, t, committed(c)) == Some(g);
    lemma_stay_grow(c, end);
    lemma_still_leads(i, t, committed(c), committed(end));
}

/// Asking for a field of a value that begins like this finds it, or reports something.
proof fn lemma_field_is_found(
    typ: Ty,
    g: Ty,
    v: TypeVariableId,
    rest: TypeVariableId,
    field: Seq<char>,
    offset: Option<Mutability>,
    place: Place,
    location: Location,
    at: Location,
    c: Cache,
    before: Cache,
)
    requires
        lookup(c.type_bindings, v) matches Some(Binding::Unbound(_, _)),
        lookup(c.type_bindings, rest) matches Some(Binding::Unbound(_, _)),
        v != rest,
        leads_to(typ, g, before),
        g is Primitive || g is Function || g is Tag || g is UserDefined,
        goes_on(before, c),
        field_found(
            typ,
            row_with(field, Ty::Variable(v), rest),
            field,
            offset,
            place,
            location,
            at,
            c,
        ) matches Some(end) && end.type_bindings.len() <= usize::MAX && reports_nothing(
            before,
            end,
        ),
    ensures
        !lacks_field(g, field, before),
        ({
            let end = field_found(
                typ,
                row_with(field, Ty::Variable(v), rest),
                field,
                offset,
                place,
                location,
                at,
                c,
            )->0;
            is_as_declared(place, g, field, offset, Ty::Variable(v), before, end)
        }),
{
    let row = row_with(field, Ty::Variable(v), rest);
    let end = field_found(typ, row, field, offset, place, location, at, c)->0;
    lemma_field_found(typ, row, field, offset, place, location, at, c);
    law_goes_on_further(before, c, end);
    law_unification_goes_on(typ, row, c);
    law_unify_keeps(MAX_DEPTH as nat, typ, row, committed(c));
    assert(is_proper(committed(c)));
    let step = fresh_unification(typ, row, c)->0;
    let tried = step.state.cache;
    lemma_leads_still(typ, g, before, c);
    let i = choose|i: nat| #[trigger] head(i, typ, committed(c)) == Some(g);
    if !step.ok {
        let wanted = match offset {
            Some(mutability) => mutability,
            None => Mutability::Immutable,
        };
        let (reference, c1) = reference_to(wanted, row, tried);
        lemma_reference_to(wanted, row, tried);
        law_unification_goes_on(typ, reference, c1);
        let step2 = fresh_unification(typ, reference, c1)->0;
        law_unify_keeps(MAX_DEPTH as nat, typ, reference, committed(c1));
        if step2.ok {
            lemma_perform_length(step2.state);
            lemma_no_reference(typ, g, wanted, row, c, tried);
        } else {
            let (immutable, c2) = reference_to(Mutability::Immutable, row, step2.state.cache);
            lemma_reference_to(Mutability::Immutable, row, step2.state.cache);
            law_unification_goes_on(typ, immutable, c2);
            assert(end.diagnostics.len() > c.diagnostics.len());
        }
    } else {
        if lacks_field(g, field, before) {
            lemma_no_field(MAX_DEPTH as nat, i, typ, row, field, c);
        }
        lemma_place(place, false, tried);
        let c1 = if offset == Some(Mutability::Mutable) {
            place_checked(place, false, tried)->0
        } else {
            tried
        };
        if offset == Some(Mutability::Mutable) {
            let s = State { solution: step.state.solution, cache: c1 };
            assert(is_proper(s)) by {
                assert forall|k: usize| #[trigger] s.solution.types.contains_key(k) implies lookup(
                    c1.type_bindings,
                    TypeVariableId(k),
                ) matches Some(Binding::Unbound(_, _)) by {
                    assert(step.state.solution.types.contains_key(k));
                }
            }
            lemma_perform_goes_on(c1, step.state.solution);
            lemma_checked(place, false, before, tried, c1, end);
        }
        assert forall|declared: Ty, h: Ty|
            declares(g, field, declared, before) && (#[trigger] leads_to(declared, h, before)) && !(
            h is Variable) && !(h is NamedGeneric) implies leads_to(Ty::Variable(v), h, end) by {
            lemma_leads_still(declared, h, before, c);
            let k = choose|k: nat| #[trigger] head(k, declared, committed(c)) == Some(h);
            let x = lemma_has_field(MAX_DEPTH as nat, i, typ, v, rest, field, declared, k, c);
            let done = tried.perform(step.state.solution);
            assert(done.type_bindings == end.type_bindings);
            lemma_perform_length(step.state);
            lemma_commit_hops(step.state, Ty::Variable(v));
            assert(hop(Ty::Variable(v), committed(done)) == Some(x));
            assert(stands_for(Ty::Variable(v), committed(end)) == Some(x));
            lemma_leads_still(x, h, c, end);
            let j = choose|j: nat| #[trigger] head(j, x, committed(end)) == Some(h);
            assert(head(j + 1, Ty::Variable(v), committed(end)) == Some(h));
        }
    }
}

/// Asking for a mutable reference to a field through an immutable one is reported.
proof fn lemma_immutable_field(
    typ: Ty,
    row: Ty,
    field: Seq<char>,
    place: Place,
    location: Location,
    at: Location,
    c: Cache,
)
    requires
        is_immutable_reference(typ, c),
        row matches Ty::Struct(_, _, rest) && (lookup(c.type_bindings, rest) matches Some(
            Binding::Unbound(_, _),
        )),
        field_found(
            typ,
            row,
            field,
            Some(Mutability::Mutable),
            place,
            location,
            at,
            c,
        ) matches Some(end) && end.type_bindings.len() <= usize::MAX,
    ensures
        field_found(
            typ,
            row,
            field,
            Some(Mutability::Mutable),
            place,
            location,
            at,
            c,
        ) matches Some(end) && end.diagnostics.len() > c.diagnostics.len(),
{
    let wanted = Mutability::Mutable;
    let end = field_found(typ, row, field, Some(wanted), place, location, at, c)->0;
    law_unification_goes_on(typ, row, c);
    let g = choose|g: Ty| #[trigger]
        leads_to(typ, g, c) && g is Application && is_immutable(*g->Application_0, c);
    let i = choose|i: nat| #[trigger] head(i, typ, committed(c)) == Some(g);
    lemma_reference_has_no_field(MAX_DEPTH as nat, i, typ, row, c);
    let tried = fresh_unification(typ, row, c)->0.state.cache;
    let (reference, c1) = reference_to(wanted, row, tried);
    lemma_reference_to(wanted, row, tried);
    law_goes_on_further(c, tried, c1);
    law_unification_goes_on(typ, reference, c1);
    law_unify_keeps(MAX_DEPTH as nat, typ, reference, committed(c1));
    let step2 = fresh_unification(typ, reference, c1)->0;
    if step2.ok {
        lemma_perform_length(step2.state);
        lemma_immutable_differs(typ, reference, c, c1);
    } else {
        let (immutable, c2) = reference_to(Mutability::Immutable, row, step2.state.cache);
        lemma_reference_to(Mutability::Immutable, row, step2.state.cache);
        law_unification_goes_on(typ, immutable, c2);
    }
}

/// An access to a field has the constraints and the effects of the value. It is of the type of the
/// field, or of references to it. Where nothing is reported, a value that was known to be of a
/// struct type has the field, of the declared type, and is mutable if the field is referred to
/// mutably. A value that has no fields, and a mutable reference to a field through an immutable
/// one, are always reported.
pub proof fn law_access_is_well_typed<A: Expression>(t: Tree, c: Cache, g: Ty)
    requires
        only_goes_on::<A>(),
        t is MemberAccess,
        MemberAccess::<A>::rule(t, c) matches Some(o) && o.cache.type_bindings.len()
            <= usize::MAX,
    ensures
        ({
            let o = MemberAccess::<A>::rule(t, c)->0;
            let lhs = *o.tree->MemberAccess_lhs;
            let offset = t->MemberAccess_offset;
            let field = t->MemberAccess_field;
            &&& o.tree is MemberAccess
            &&& is_part::<A>(*t->MemberAccess_lhs, lhs, c, o.result, o.cache)
            &&& exists|v: TypeVariableId| #[trigger]
                is_accessed(o.result.typ, offset, Ty::Variable(v)) && c.type_bindings.len() <= v.0
                    < o.cache.type_bindings.len() && (reports_nothing(c, o.cache) && leads_to(
                    noted(lhs),
                    g,
                    c,
                ) && g is UserDefined ==> is_as_declared(
                    lhs.place_of(),
                    g,
                    field,
                    offset,
                    Ty::Variable(v),
                    c,
                    o.cache,
                ))
            &&& reports_nothing(c, o.cache) && leads_to(noted(lhs), g, c) ==> !lacks_field(
                g,
                field,
                c,
            )
            &&& offset == Some(Mutability::Mutable) && is_immutable_reference(noted(lhs), c)
                ==> !reports_nothing(c, o.cache)
        }),
{
    let end = MemberAccess::<A>::rule(t, c)->0;
    let (lhs, field, offset, location) = match t {
        Tree::MemberAccess { lhs, field, offset, location, .. } => (*lhs, field, offset, location),
        _ => arbitrary(),
    };
    assert(goes_on(c, c));
    lemma_only_part::<A>(lhs, c, c);
    let o = inferred::<A>(lhs, c)->0;
    let level = o.cache.current_level;
    let v = TypeVariableId(o.cache.next_id().0);
    let c1 = o.cache.fresh(level);
    let rest = c1.next_id();
    let c2 = c1.fresh(level);
    let row = row_with(field, Ty::Variable(v), rest);
    lemma_fresh_goes_on(o.cache, level);
    lemma_fresh_goes_on(c1, level);
    law_goes_on_further(c, o.cache, c1);
    law_goes_on_further(c, c1, c2);
    law_goes_on_further(o.cache, c1, c2);
    let place = o.tree.place_of();
    let at = o.tree.location_of();
    lemma_field_found(o.result.typ, row, field, offset, place, location, at, c2);
    let c3 = field_found(o.result.typ, row, field, offset, place, location, at, c2)->0;
    assert(goes_on(c3, end.cache)) by {
        if let Some(mutability) = offset {
            lemma_reference_to(mutability, Ty::Variable(v), c3);
        }
    }
    law_goes_on_further(o.cache, c2, c3);
    law_goes_on_further(o.cache, c3, end.cache);
    lemma_carries_itself(end.result, end.cache);
    assert(carries(o.result, end.result, end.cache));
    lemma_part_still::<A>(lhs, o.tree, c, o.result, o.cache, end.result, end.cache);
    assert(is_accessed(end.result.typ, offset, Ty::Variable(v)));
    if reports_nothing(c, end.cache) && leads_to(noted(o.tree), g, c) && (g is Primitive
        || g is Function || g is Tag || g is UserDefined) {
        lemma_field_is_found(
            o.result.typ,
            g,
            v,
            rest,
            field,
            offset,
            place,
            location,
            at,
            c2,
            c,
        );
        assert forall|declared: Ty, h: Ty|
            declares(g, field, declared, c) && (#[trigger] leads_to(declared, h, c)) && !(
            h is Variable) && !(h is NamedGeneric) implies leads_to(
            Ty::Variable(v),
            h,
            end.cache,
        ) by {
            lemma_leads_still(Ty::Variable(v), h, c3, end.cache);
        }
        assert(is_as_declared(place, g, field, offset, Ty::Variable(v), c, end.cache));
    }
    if offset == Some(Mutability::Mutable) && is_immutable_reference(noted(o.tree), c) {
        lemma_stay_grow(c, c2);
        lemma_immutable_still(o.result.typ, c, c2);
        lemma_immutable_field(o.result.typ, row, field, place, location, at, c2);
    }
}

} // verus!
