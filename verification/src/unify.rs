//! Unification: finding bindings for the variables of two types under which the types agree.

use crate::bindings::{insert_binding, is_empty, min_level, Solution, UnificationBindings};
use crate::cache::{lookup, Binding, Cache, InfoBody, ModuleCache, TypeBinding, TypeInfoBody};
use crate::effects::{
    effect_args, effect_id, effects_without, find_effect, flatten, flatten_at, position_of_effect,
    without_effects,
};
use crate::occurs::{occurs_helper, occurs_in};
use crate::resolve::{
    application_bindings, application_bindings_at, binding_of, find_binding, follow, follow_at,
    paired, MAX_DEPTH,
};
use crate::rows::{find_field, insert_field, row, Row};
use crate::subst::{bind_fields_at, bind_seq};
use crate::types::{
    clone_fields, effect_tys, field_names, field_tys, tys, Effect, EffectSet, Field,
    LetBindingLevel, Ty, Type, TypeTag, TypeVariableId,
};
use vstd::prelude::*;

verus! {

/// How deep the occurs check and the collection of type variables may go.
pub const RECURSION_LIMIT: u32 = 100;

/// What unification works on: the bindings found so far, and the cache.
#[verifier::ext_equal]
pub struct State {
    pub solution: Solution,
    pub cache: Cache,
}

/// What unification comes to.
#[verifier::ext_equal]
pub struct Step {
    /// Whether the types could be unified.
    pub ok: bool,
    pub manner: Manner,
    pub state: State,
}

/// The way in which types were unified.
pub struct Manner {
    /// Whether each variable that was bound was unbound before, no row of fields was left in a way
    /// after which the types may differ, and no tag stood in the place of another where two types
    /// were taken in reverse order.
    pub regular: bool,
    /// Whether no tag stood in the place of another.
    pub exact: bool,
}

impl Manner {
    /// Unifying without anything out of the ordinary.
    pub open spec fn plain() -> Manner {
        Manner { regular: true, exact: true }
    }

    /// Unifying in the one way after the other.
    pub open spec fn and(self, other: Manner) -> Manner {
        Manner { regular: self.regular && other.regular, exact: self.exact && other.exact }
    }

    /// The same, where it is regular on a further condition only.
    pub open spec fn provided(self, condition: bool) -> Manner {
        Manner { regular: self.regular && condition, exact: self.exact }
    }
}

impl State {
    /// The state in which a further variable is bound.
    pub open spec fn insert(self, id: TypeVariableId, t: Ty) -> State {
        State { solution: self.solution.insert(id, t), cache: self.cache }
    }

    /// What a variable stands for.
    pub open spec fn binding_of(self, id: TypeVariableId) -> Option<Binding> {
        binding_of(id, self.solution.types, self.cache.type_bindings)
    }

    /// Whether a variable stands for itself.
    pub open spec fn is_unbound(self, id: TypeVariableId) -> bool {
        self.binding_of(id) matches Some(Binding::Unbound(_, _))
    }
}

/// The types are unified.
pub open spec fn unified(state: State) -> Option<Step> {
    Some(Step { ok: true, manner: Manner::plain(), state })
}

/// The types do not unify.
pub open spec fn failed(state: State) -> Option<Step> {
    Some(Step { ok: false, manner: Manner::plain(), state })
}

/// The step came to an end with the types unified.
pub open spec fn succeeded(step: Option<Step>) -> bool {
    step matches Some(s) && s.ok
}

/// The step, after others in the given manner.
pub open spec fn after(manner: Manner, step: Option<Step>) -> Option<Step> {
    match step {
        Some(s) => Some(Step { manner: manner.and(s.manner), ..s }),
        None => None,
    }
}

/// The step, which took its types in reverse order.
pub open spec fn reversed(step: Option<Step>) -> Option<Step> {
    match step {
        Some(s) => Some(Step { manner: s.manner.provided(s.manner.exact), ..s }),
        None => None,
    }
}

/// The merged row, after other steps in the given manner.
pub open spec fn merged_after(manner: Manner, merged: Option<(Step, Row)>) -> Option<(Step, Row)> {
    match merged {
        Some((s, r)) => Some((Step { manner: manner.and(s.manner), ..s }, r)),
        None => None,
    }
}

/// Collects the first `n` fields into a row ordered by name. The last of several fields of one
/// name counts.
pub open spec fn collect_row(n: nat, names: Seq<Seq<char>>, types: Seq<Ty>) -> Row
    decreases n,
{
    if n == 0 {
        Row { names: Seq::empty(), types: Seq::empty() }
    } else {
        collect_row((n - 1) as nat, names, types).insert(names[n - 1], types[n - 1])
    }
}

/// The fields of a type, `Some(None)` if it has none: those of a struct type, at the arguments it
/// is applied to, or of a row.
pub open spec fn fields_of(depth: nat, t: Ty, args: Seq<Ty>, s: State) -> Option<Option<Row>>
    decreases depth,
{
    if depth == 0 {
        None
    } else {
        let d = (depth - 1) as nat;
        let vars = s.cache.type_bindings;
        match t {
            Ty::UserDefined(id) => if id.0 >= s.cache.type_infos.len() {
                None
            } else {
                let info = s.cache.type_infos[id.0 as int];
                match info.body {
                    InfoBody::Alias(alias) => fields_of(d, alias, args, s),
                    InfoBody::Union => Some(None),
                    InfoBody::Unknown => None,
                    InfoBody::Struct(names, types) => if args.len() == 0 {
                        Some(Some(collect_row(names.len(), names, types)))
                    } else {
                        match application_bindings(paired(info.args, args), info.args, args, vars) {
                            None => None,
                            Some(m) => if m == Map::<usize, Ty>::empty() {
                                Some(Some(collect_row(names.len(), names, types)))
                            } else {
                                match bind_seq(MAX_DEPTH as nat, types, m, vars) {
                                    None => None,
                                    Some(bound) => Some(
                                        Some(collect_row(names.len(), names, bound)),
                                    ),
                                }
                            },
                        }
                    },
                }
            },
            Ty::Application(constructor, args2) => match follow(
                MAX_DEPTH as nat,
                *constructor,
                s.solution.types,
                vars,
            ) {
                None => None,
                Some(c) => fields_of(d, c, args2, s),
            },
            Ty::Struct(names, types, rest) => match lookup(vars, rest) {
                None => None,
                Some(Binding::Bound(b)) => fields_of(d, b, args, s),
                Some(Binding::Unbound(_, _)) => Some(Some(Row { names, types })),
            },
            Ty::Variable(id) => match lookup(vars, id) {
                None => None,
                Some(Binding::Bound(b)) => fields_of(d, b, args, s),
                Some(Binding::Unbound(_, _)) => Some(None),
            },
            _ => Some(None),
        }
    }
}

/// The cache with a fresh row variable, whose level is the lower one of two unbound variables.
pub open spec fn fresh_row(c: Cache, a: TypeVariableId, b: TypeVariableId) -> Option<Cache> {
    match (lookup(c.type_bindings, a), lookup(c.type_bindings, b)) {
        (Some(Binding::Unbound(l1, _)), Some(Binding::Unbound(l2, _))) => Some(
            c.fresh(min_level(l1, l2)),
        ),
        _ => None,
    }
}

/// Unifies the actual with the expected type. `None` if the nesting exceeds `depth`, the occurs
/// check exceeds its limit, or a variable or a type is not in the cache or not known.
pub open spec fn unify_types(depth: nat, a: Ty, b: Ty, s: State) -> Option<Step>
    decreases depth, 0nat, 0nat,
{
    if depth == 0 {
        None
    } else {
        let d = (depth - 1) as nat;
        match (a, b) {
            (Ty::Variable(id), _) => unify_variable(d, id, a, b, true, s),
            (_, Ty::Variable(id)) => unify_variable(d, id, b, a, false, s),
            (Ty::Primitive(p), Ty::Primitive(q)) => if p == q {
                unified(s)
            } else {
                failed(s)
            },
            (Ty::UserDefined(p), Ty::UserDefined(q)) => if p == q {
                unified(s)
            } else {
                failed(s)
            },
            (
                Ty::Function { parameters, return_type, environment, effects, has_varargs },
                Ty::Function {
                    parameters: parameters2,
                    return_type: return_type2,
                    environment: environment2,
                    effects: effects2,
                    has_varargs: has_varargs2,
                },
            ) => if parameters.len() != parameters2.len() && !(has_varargs && parameters2.len()
                >= parameters.len()) && !(has_varargs2 && parameters.len() >= parameters2.len()) {
                failed(s)
            } else {
                let s1 = unify_seq(d, parameters, parameters2, s);
                if !succeeded(s1) {
                    s1
                } else {
                    // The return types are compared the other way round, to keep what a mutable
                    // reference can stand for.
                    let s2 = after(
                        s1->0.manner,
                        unify_types(d, *return_type2, *return_type, s1->0.state),
                    );
                    if !succeeded(s2) {
                        s2
                    } else {
                        let s3 = after(
                            s2->0.manner,
                            unify_types(d, *environment, *environment2, s2->0.state),
                        );
                        if !succeeded(s3) {
                            s3
                        } else {
                            after(
                                s3->0.manner,
                                unify_types(d, *effects, *effects2, s3->0.state),
                            )
                        }
                    }
                }
            },
            (Ty::Application(c1, args1), Ty::Application(c2, args2)) => {
                let s1 = unify_types(d, *c1, *c2, s);
                if !succeeded(s1) {
                    s1
                } else if args1.len() != args2.len() {
                    after(s1->0.manner, failed(s1->0.state))
                } else {
                    after(s1->0.manner, unify_seq(d, args1, args2, s1->0.state))
                }
            },
            (
                Ty::Ref { sharedness, mutability, lifetime },
                Ty::Ref { sharedness: sharedness2, mutability: mutability2, lifetime: lifetime2 },
            ) => {
                let s1 = unify_types(d, *sharedness, *sharedness2, s);
                if !succeeded(s1) {
                    s1
                } else {
                    let s2 = after(
                        s1->0.manner,
                        unify_types(d, *mutability, *mutability2, s1->0.state),
                    );
                    if !succeeded(s2) {
                        s2
                    } else {
                        after(s2->0.manner, unify_types(d, *lifetime, *lifetime2, s2->0.state))
                    }
                }
            },
            (Ty::Struct(names1, types1, rest1), _) => match lookup(
                s.cache.type_bindings,
                rest1,
            ) {
                None => None,
                Some(Binding::Bound(t)) => unify_types(d, t, b, s),
                Some(Binding::Unbound(_, _)) => match b {
                    Ty::Struct(names2, types2, rest2) => match lookup(
                        s.cache.type_bindings,
                        rest2,
                    ) {
                        None => None,
                        Some(Binding::Bound(t)) => reversed(unify_types(d, t, a, s)),
                        Some(Binding::Unbound(_, _)) => unify_rows(
                            d,
                            Row { names: names1, types: types1 },
                            rest1,
                            Row { names: names2, types: types2 },
                            rest2,
                            s,
                        ),
                    },
                    _ => unify_row_with(d, Row { names: names1, types: types1 }, rest1, b, s),
                },
            },
            (_, Ty::Struct(names2, types2, rest2)) => match lookup(s.cache.type_bindings, rest2) {
                None => None,
                Some(Binding::Bound(t)) => reversed(unify_types(d, t, a, s)),
                Some(Binding::Unbound(_, _)) => unify_row_with(
                    d,
                    Row { names: names2, types: types2 },
                    rest2,
                    a,
                    s,
                ),
            },
            (Ty::NamedGeneric(id1, _), _) => match s.binding_of(id1) {
                None => None,
                Some(Binding::Bound(t)) => unify_types(d, t, b, s),
                Some(Binding::Unbound(_, kind1)) => match b {
                    Ty::NamedGeneric(id2, name2) => match s.binding_of(id2) {
                        None => None,
                        Some(Binding::Bound(t)) => unify_types(d, a, t, s),
                        Some(Binding::Unbound(_, kind2)) => if id1 == id2 {
                            unified(s)
                        } else if kind1 != kind2 {
                            failed(s)
                        } else {
                            unified(s.insert(id1, b))
                        },
                    },
                    _ => failed(s),
                },
            },
            (_, Ty::NamedGeneric(id2, _)) => match s.binding_of(id2) {
                None => None,
                Some(Binding::Bound(t)) => unify_types(d, a, t, s),
                Some(Binding::Unbound(_, _)) => failed(s),
            },
            (Ty::Effects(effects1, extension1), Ty::Effects(effects2, extension2)) => {
                unify_effects(d, effects1, extension1, effects2, extension2, s)
            },
            (Ty::Tag(t1), Ty::Tag(t2)) => if t1 == t2 {
                unified(s)
            } else if (t1 == TypeTag::Mutable && t2 == TypeTag::Immutable) || (t1
                == TypeTag::Owned && t2 == TypeTag::Shared) {
                after(Manner { regular: true, exact: false }, unified(s))
            } else {
                failed(s)
            },
            _ => failed(s),
        }
    }
}

/// Unifies the types pair by pair, up to the end of the shorter list.
pub open spec fn unify_seq(depth: nat, xs: Seq<Ty>, ys: Seq<Ty>, s: State) -> Option<Step>
    decreases depth, 1nat, xs.len(),
{
    if xs.len() == 0 || ys.len() == 0 {
        unified(s)
    } else {
        let first = unify_types(depth, xs[0], ys[0], s);
        if !succeeded(first) {
            first
        } else {
            after(first->0.manner, unify_seq(depth, xs.skip(1), ys.skip(1), first->0.state))
        }
    }
}

/// Unifies the variable `id`, which is or stands for the type `a`, with the type `b`: its binding
/// if it has one. An unbound variable is bound to what `b` stands for, unless that is the
/// variable itself or a type that it occurs in.
pub open spec fn unify_variable(
    depth: nat,
    id: TypeVariableId,
    a: Ty,
    b: Ty,
    on_lhs: bool,
    s: State,
) -> Option<Step>
    decreases depth, 1nat, 0nat,
{
    let types = s.solution.types;
    let vars = s.cache.type_bindings;
    match s.binding_of(id) {
        None => None,
        Some(Binding::Bound(t)) => if on_lhs {
            unify_types(depth, t, b, s)
        } else {
            unify_types(depth, b, t, s)
        },
        Some(Binding::Unbound(level, _)) => match follow(MAX_DEPTH as nat, b, types, vars) {
            None => None,
            Some(end) => if a == end {
                unified(s)
            } else {
                match occurs_in(RECURSION_LIMIT as nat, id, level, end, types, vars) {
                    None => None,
                    Some((true, _)) => failed(s),
                    Some((false, levels)) => unified(
                        State {
                            solution: Solution {
                                types: types.insert(id.0, end),
                                levels: s.solution.levels + levels,
                            },
                            cache: s.cache,
                        },
                    ),
                }
            },
        },
    }
}

/// Merges the fields of the second row into the first: unifies those that both have, and adds the
/// others.
pub open spec fn merge_rows(depth: nat, row1: Row, row2: Row, s: State) -> Option<(Step, Row)>
    decreases depth, 2nat, row2.names.len(),
{
    if row2.names.len() == 0 {
        Some((Step { ok: true, manner: Manner::plain(), state: s }, row1))
    } else {
        let name = row2.names[0];
        let typ = row2.types[0];
        let rest = Row { names: row2.names.skip(1), types: row2.types.skip(1) };
        match row1.get(name) {
            None => merge_rows(depth, row1.insert(name, typ), rest, s),
            Some(typ1) => match unify_types(depth, typ1, typ, s) {
                None => None,
                Some(first) => if !first.ok {
                    Some((first, row1))
                } else {
                    match merge_rows(depth, row1, rest, first.state) {
                        None => None,
                        Some((last, merged)) => Some(
                            (Step { manner: first.manner.and(last.manner), ..last }, merged),
                        ),
                    }
                },
            },
        }
    }
}

/// Unifies two rows whose variables the cache leaves unbound. If each has fields that the other
/// lacks, both become a row with all the fields; if only one does, the other becomes it.
pub open spec fn unify_rows(
    depth: nat,
    row1: Row,
    rest1: TypeVariableId,
    row2: Row,
    rest2: TypeVariableId,
    s: State,
) -> Option<Step>
    decreases depth, 3nat, 0nat,
{
    match merge_rows(depth, row1, row2, s) {
        None => None,
        Some((first, merged)) => {
            let s1 = first.state;
            let n = merged.names.len();
            let manner = first.manner.provided(row1.sorted() && row2.sorted());
            if !first.ok {
                Some(first)
            } else if n != row1.names.len() && n != row2.names.len() {
                let second = after(
                    manner,
                    unify_variable(
                        depth,
                        rest1,
                        Ty::Variable(rest1),
                        Ty::Variable(rest2),
                        true,
                        s1,
                    ),
                );
                if !succeeded(second) {
                    second
                } else {
                    let s2 = second->0.state;
                    match fresh_row(s2.cache, rest1, rest2) {
                        None => None,
                        Some(c) => {
                            let s3 = State { solution: s2.solution, cache: c };
                            Some(
                                Step {
                                    ok: true,
                                    manner: second->0.manner.provided(s2.is_unbound(rest2)),
                                    state: s3.insert(
                                        rest2,
                                        Ty::Struct(
                                            merged.names,
                                            merged.types,
                                            s2.cache.next_id(),
                                        ),
                                    ),
                                },
                            )
                        },
                    }
                }
            } else if n != row1.names.len() {
                after(
                    manner.provided(s1.is_unbound(rest1)),
                    unify_variable(
                        depth,
                        rest1,
                        Ty::Variable(rest1),
                        Ty::Struct(merged.names, merged.types, rest2),
                        true,
                        s1,
                    ),
                )
            } else if n != row2.names.len() {
                after(
                    manner,
                    unify_variable(
                        depth,
                        rest2,
                        Ty::Variable(rest2),
                        Ty::Struct(merged.names, merged.types, rest1),
                        false,
                        s1,
                    ),
                )
            } else {
                after(manner.provided(rest1 == rest2), unified(s1))
            }
        },
    }
}

/// Unifies each field of the row with the field of that name in the template, which must have
/// them all.
pub open spec fn unify_subset(depth: nat, fields: Row, template: Row, s: State) -> Option<Step>
    decreases depth, 2nat, fields.names.len(),
{
    if fields.names.len() == 0 {
        unified(s)
    } else {
        match template.get(fields.names[0]) {
            None => failed(s),
            Some(t) => {
                let first = unify_types(depth, t, fields.types[0], s);
                if !succeeded(first) {
                    first
                } else {
                    after(
                        first->0.manner,
                        unify_subset(
                            depth,
                            Row { names: fields.names.skip(1), types: fields.types.skip(1) },
                            template,
                            first->0.state,
                        ),
                    )
                }
            },
        }
    }
}

/// Unifies a row, whose variable the cache leaves unbound, with a type that is none: the type
/// must have the fields, and the row becomes the type.
pub open spec fn unify_row_with(
    depth: nat,
    fields: Row,
    rest: TypeVariableId,
    other: Ty,
    s: State,
) -> Option<Step>
    decreases depth, 3nat, 0nat,
{
    match fields_of(MAX_DEPTH as nat, other, Seq::empty(), s) {
        None => None,
        Some(None) => failed(s),
        Some(Some(template)) => if fields.names.len() > template.names.len() {
            failed(s)
        } else {
            let first = unify_subset(depth, fields, template, s);
            if !succeeded(first) {
                first
            } else {
                let s1 = first->0.state;
                after(
                    first->0.manner.provided(s1.is_unbound(rest)),
                    unified(s1.insert(rest, other)),
                )
            }
        },
    }
}

/// Unifies the arguments of each effect with those of the first other effect of the same id.
pub open spec fn unify_common(depth: nat, effects: Seq<Ty>, others: Seq<Ty>, s: State) -> Option<
    Step,
>
    decreases depth, 2nat, effects.len(),
{
    if effects.len() == 0 {
        unified(s)
    } else {
        match find_effect(others, effect_id(effects[0])) {
            None => unify_common(depth, effects.skip(1), others, s),
            Some(i) => {
                let xs = effect_args(effects[0]);
                let ys = effect_args(others[i]);
                if xs.len() != ys.len() {
                    failed(s)
                } else {
                    let first = unify_seq(depth, xs, ys, s);
                    if !succeeded(first) {
                        first
                    } else {
                        after(
                            first->0.manner,
                            unify_common(depth, effects.skip(1), others, first->0.state),
                        )
                    }
                }
            },
        }
    }
}

/// Unifies two rows of effects: those that both have at the same arguments, and those that only
/// one has by extending the other, which must be open.
pub open spec fn unify_effects(
    depth: nat,
    effects1: Seq<Ty>,
    extension1: Option<TypeVariableId>,
    effects2: Seq<Ty>,
    extension2: Option<TypeVariableId>,
    s: State,
) -> Option<Step>
    decreases depth, 3nat, 0nat,
{
    let types = s.solution.types;
    let vars = s.cache.type_bindings;
    match (
        flatten(MAX_DEPTH as nat, effects1, extension1, types, vars),
        flatten(MAX_DEPTH as nat, effects2, extension2, types, vars),
    ) {
        (Some((xs, end1)), Some((ys, end2))) => {
            let first = unify_common(depth, xs, ys, s);
            if !succeeded(first) {
                first
            } else {
                let s1 = first->0.state;
                let only1 = effects_without(xs, ys);
                let only2 = effects_without(ys, xs);
                after(
                    first->0.manner,
                    match (end1, end2) {
                        (None, None) => if only1.len() == 0 && only2.len() == 0 {
                            unified(s1)
                        } else {
                            failed(s1)
                        },
                        (Some(x), None) => if only1.len() == 0 {
                            unify_variable(
                                depth,
                                x,
                                Ty::Variable(x),
                                Ty::Effects(only2, None),
                                true,
                                s1,
                            )
                        } else {
                            failed(s1)
                        },
                        (None, Some(y)) => if only2.len() == 0 {
                            unify_variable(
                                depth,
                                y,
                                Ty::Variable(y),
                                Ty::Effects(only1, None),
                                true,
                                s1,
                            )
                        } else {
                            failed(s1)
                        },
                        (Some(x), Some(y)) => if only1.len() == 0 && only2.len() == 0 {
                            unify_variable(depth, x, Ty::Variable(x), Ty::Variable(y), true, s1)
                        } else if x == y {
                            failed(s1)
                        } else {
                            match fresh_row(s1.cache, x, y) {
                                None => None,
                                Some(c) => {
                                    let z = s1.cache.next_id();
                                    let s2 = State { solution: s1.solution, cache: c };
                                    let second = unify_variable(
                                        depth,
                                        x,
                                        Ty::Variable(x),
                                        Ty::Effects(only2, Some(z)),
                                        true,
                                        s2,
                                    );
                                    if !succeeded(second) {
                                        second
                                    } else {
                                        after(
                                            second->0.manner,
                                            unify_variable(
                                                depth,
                                                y,
                                                Ty::Variable(y),
                                                Ty::Effects(only1, Some(z)),
                                                true,
                                                second->0.state,
                                            ),
                                        )
                                    }
                                },
                            }
                        },
                    },
                )
            }
        },
        _ => None,
    }
}

/// The state of unification.
pub open spec fn state_of(bindings: UnificationBindings, cache: ModuleCache) -> State {
    State { solution: bindings@, cache: cache@ }
}

/// Whether a result, and the state left behind, are those of a step.
pub open spec fn is_step(r: Option<Result<(), ()>>, s: State, m: Option<Step>) -> bool {
    match m {
        Some(step) => r is Some && (r->0 is Ok) == step.ok && s == step.state,
        None => r is None,
    }
}

/// Whether fields are those their model says.
pub open spec fn are_fields(r: Option<Result<Vec<Field>, ()>>, m: Option<Option<Row>>) -> bool {
    match m {
        None => r is None,
        Some(None) => r matches Some(Err(_)),
        Some(Some(fields)) => r matches Some(Ok(v)) && row(v@) == fields,
    }
}

/// Collects the fields into a row. The last of several fields of one name counts.
fn collect_fields(fields: Vec<Field>) -> (r: Vec<Field>)
    ensures
        row(r@) == collect_row(
            field_names(fields@).len(),
            field_names(fields@),
            field_tys(fields@),
        ),
{
    let ghost names = field_names(fields@);
    let ghost types = field_tys(fields@);
    let mut r: Vec<Field> = Vec::new();
    let mut i: usize = 0;
    assert(row(r@) =~= collect_row(0, names, types));
    while i < fields.len()
        invariant
            i <= fields.len(),
            names == field_names(fields@),
            types == field_tys(fields@),
            row(r@) == collect_row(i as nat, names, types),
        decreases fields.len() - i,
    {
        assert(names[i as int] == fields@[i as int].name@);
        assert(types[i as int] == fields@[i as int].typ@);
        insert_field(&mut r, fields[i].name.clone(), fields[i].typ.clone());
        i += 1;
    }
    r
}

/// The fields of a type. An error if it has none, `None` where finding them does not end.
pub fn get_fields(
    depth: u64,
    typ: &Type,
    args: &[Type],
    bindings: &UnificationBindings,
    cache: &ModuleCache,
) -> (r: Option<Result<Vec<Field>, ()>>)
    ensures
        are_fields(r, fields_of(depth as nat, typ@, tys(args@), state_of(*bindings, *cache))),
    decreases depth,
{
    if depth == 0 {
        return None;
    }
    let d: u64 = depth - 1;
    match typ {
        Type::UserDefined(id) => {
            if id.0 >= cache.type_infos.len() {
                return None;
            }
            let info = &cache.type_infos[id.0];
            assert(cache@.type_infos[id.0 as int] == info@);
            match &info.body {
                TypeInfoBody::Alias(alias) => get_fields(d, alias, args, bindings, cache),
                TypeInfoBody::Union => Some(Err(())),
                TypeInfoBody::Unknown => None,
                TypeInfoBody::Struct(fields) => {
                    if args.len() == 0 {
                        return Some(Ok(collect_fields(clone_fields(fields))));
                    }
                    let more_bindings = application_bindings_at(info, args, cache)?;
                    if is_empty(&more_bindings) {
                        return Some(Ok(collect_fields(clone_fields(fields))));
                    }
                    let bound = bind_fields_at(MAX_DEPTH, fields, &more_bindings, cache)?;
                    Some(Ok(collect_fields(bound)))
                },
            }
        },
        Type::TypeApplication(constructor, args2) => {
            let constructor = follow_at(MAX_DEPTH, constructor, bindings, cache)?;
            get_fields(d, &constructor, args2, bindings, cache)
        },
        Type::Struct(fields, rest) => {
            if rest.0 >= cache.type_bindings.len() {
                return None;
            }
            match &cache.type_bindings[rest.0] {
                TypeBinding::Bound(binding) => get_fields(d, binding, args, bindings, cache),
                TypeBinding::Unbound(_, _) => Some(Ok(clone_fields(fields))),
            }
        },
        Type::TypeVariable(id) => {
            if id.0 >= cache.type_bindings.len() {
                return None;
            }
            match &cache.type_bindings[id.0] {
                TypeBinding::Bound(binding) => get_fields(d, binding, args, bindings, cache),
                TypeBinding::Unbound(_, _) => Some(Err(())),
            }
        },
        _ => Some(Err(())),
    }
}

/// A fresh row variable, with the lower level of the two given variables. `None` unless both are
/// unbound.
pub fn new_row_variable(
    row1: TypeVariableId,
    row2: TypeVariableId,
    cache: &mut ModuleCache,
) -> (r: Option<TypeVariableId>)
    ensures
        match fresh_row(old(cache)@, row1, row2) {
            Some(c) => r == Some(old(cache)@.next_id()) && final(cache)@ == c,
            None => r is None && final(cache)@ == old(cache)@,
        },
{
    if row1.0 >= cache.type_bindings.len() || row2.0 >= cache.type_bindings.len() {
        return None;
    }
    match (&cache.type_bindings[row1.0], &cache.type_bindings[row2.0]) {
        (TypeBinding::Unbound(level1, _), TypeBinding::Unbound(level2, _)) => {
            let new_level: LetBindingLevel = if level1.0 <= level2.0 {
                *level1
            } else {
                *level2
            };
            Some(cache.next_type_variable_id(new_level))
        },
        _ => None,
    }
}

/// `try_unify_with_bindings_inner` for types of any shape: `None` where the result would not be
/// defined.
pub fn unify_at(
    depth: u64,
    actual: &Type,
    expected: &Type,
    bindings: &mut UnificationBindings,
    cache: &mut ModuleCache,
) -> (r: Option<Result<(), ()>>)
    ensures
        is_step(
            r,
            state_of(*final(bindings), *final(cache)),
            unify_types(depth as nat, actual@, expected@, state_of(*old(bindings), *old(cache))),
        ),
    decreases depth, 0nat,
{
    if depth == 0 {
        return None;
    }
    let d: u64 = depth - 1;
    match (actual, expected) {
        (Type::TypeVariable(id), _) => unify_variable_at(
            d,
            *id,
            actual,
            expected,
            true,
            bindings,
            cache,
        ),
        (_, Type::TypeVariable(id)) => unify_variable_at(
            d,
            *id,
            expected,
            actual,
            false,
            bindings,
            cache,
        ),
        (Type::Primitive(p), Type::Primitive(q)) => if *p == *q {
            Some(Ok(()))
        } else {
            Some(Err(()))
        },
        (Type::UserDefined(p), Type::UserDefined(q)) => if *p == *q {
            Some(Ok(()))
        } else {
            Some(Err(()))
        },
        (Type::Function(function1), Type::Function(function2)) => {
            proof {
                assert(tys(function1.parameters@).len() == function1.parameters.len());
                assert(tys(function2.parameters@).len() == function2.parameters.len());
            }
            if function1.parameters.len() != function2.parameters.len() {
                // Whether a function takes further arguments is never unified: where one does,
                // both are taken to.
                if !(function1.has_varargs && function2.parameters.len()
                    >= function1.parameters.len()) && !(function2.has_varargs
                    && function1.parameters.len() >= function2.parameters.len()) {
                    return Some(Err(()));
                }
            }
            let s1 = unify_types_at(
                d,
                &function1.parameters,
                &function2.parameters,
                bindings,
                cache,
            )?;
            if s1.is_err() {
                return Some(s1);
            }
            let s2 = unify_at(d, &function2.return_type, &function1.return_type, bindings, cache)?;
            if s2.is_err() {
                return Some(s2);
            }
            let s3 = unify_at(d, &function1.environment, &function2.environment, bindings, cache)?;
            if s3.is_err() {
                return Some(s3);
            }
            unify_at(d, &function1.effects, &function2.effects, bindings, cache)
        },
        (Type::TypeApplication(c1, args1), Type::TypeApplication(c2, args2)) => {
            proof {
                assert(tys(args1@).len() == args1.len());
                assert(tys(args2@).len() == args2.len());
            }
            // The constructors come before the lengths: a mismatch there says more.
            let s1 = unify_at(d, c1, c2, bindings, cache)?;
            if s1.is_err() {
                return Some(s1);
            }
            if args1.len() != args2.len() {
                return Some(Err(()));
            }
            unify_types_at(d, args1, args2, bindings, cache)
        },
        (
            Type::Ref { sharedness, mutability, lifetime },
            Type::Ref { sharedness: sharedness2, mutability: mutability2, lifetime: lifetime2 },
        ) => {
            let s1 = unify_at(d, sharedness, sharedness2, bindings, cache)?;
            if s1.is_err() {
                return Some(s1);
            }
            let s2 = unify_at(d, mutability, mutability2, bindings, cache)?;
            if s2.is_err() {
                return Some(s2);
            }
            unify_at(d, lifetime, lifetime2, bindings, cache)
        },
        (Type::Struct(fields1, rest1), _) => {
            if rest1.0 >= cache.type_bindings.len() {
                return None;
            }
            if let TypeBinding::Bound(bound) = &cache.type_bindings[rest1.0] {
                let bound = bound.clone();
                return unify_at(d, &bound, expected, bindings, cache);
            }
            match expected {
                Type::Struct(fields2, rest2) => {
                    if rest2.0 >= cache.type_bindings.len() {
                        return None;
                    }
                    if let TypeBinding::Bound(bound) = &cache.type_bindings[rest2.0] {
                        let bound = bound.clone();
                        return unify_at(d, &bound, actual, bindings, cache);
                    }
                    bind_struct_fields(d, fields1, fields2, *rest1, *rest2, bindings, cache)
                },
                _ => unify_struct_at(d, fields1, *rest1, expected, bindings, cache),
            }
        },
        (_, Type::Struct(fields2, rest2)) => {
            if rest2.0 >= cache.type_bindings.len() {
                return None;
            }
            if let TypeBinding::Bound(bound) = &cache.type_bindings[rest2.0] {
                let bound = bound.clone();
                return unify_at(d, &bound, actual, bindings, cache);
            }
            unify_struct_at(d, fields2, *rest2, actual, bindings, cache)
        },
        (Type::NamedGeneric(id1, _), _) => {
            if id1.0 >= cache.type_bindings.len() {
                return None;
            }
            match find_binding(*id1, bindings, cache) {
                TypeBinding::Bound(binding) => unify_at(d, &binding, expected, bindings, cache),
                TypeBinding::Unbound(_, kind1) => match expected {
                    Type::NamedGeneric(id2, _) => {
                        if id2.0 >= cache.type_bindings.len() {
                            return None;
                        }
                        match find_binding(*id2, bindings, cache) {
                            TypeBinding::Bound(binding) => unify_at(
                                d,
                                actual,
                                &binding,
                                bindings,
                                cache,
                            ),
                            // Two rigid variables may be bound to each other: mutual recursion
                            // needs that.
                            TypeBinding::Unbound(_, kind2) => if *id1 == *id2 {
                                Some(Ok(()))
                            } else if kind1 != kind2 {
                                Some(Err(()))
                            } else {
                                insert_binding(&mut bindings.bindings, *id1, expected.clone());
                                Some(Ok(()))
                            },
                        }
                    },
                    _ => Some(Err(())),
                },
            }
        },
        (_, Type::NamedGeneric(id2, _)) => {
            if id2.0 >= cache.type_bindings.len() {
                return None;
            }
            match find_binding(*id2, bindings, cache) {
                TypeBinding::Bound(binding) => unify_at(d, actual, &binding, bindings, cache),
                TypeBinding::Unbound(_, _) => Some(Err(())),
            }
        },
        (Type::Effects(effects1), Type::Effects(effects2)) => unify_effects_at(
            d,
            effects1,
            effects2,
            bindings,
            cache,
        ),
        (Type::Tag(tag1), Type::Tag(tag2)) => if *tag1 == *tag2 || (*tag1 == TypeTag::Mutable
            && *tag2 == TypeTag::Immutable) || (*tag1 == TypeTag::Owned && *tag2
            == TypeTag::Shared) {
            Some(Ok(()))
        } else {
            Some(Err(()))
        },
        _ => Some(Err(())),
    }
}

/// Unifies the types pair by pair, up to the end of the shorter list.
pub fn unify_types_at(
    depth: u64,
    actual: &[Type],
    expected: &[Type],
    bindings: &mut UnificationBindings,
    cache: &mut ModuleCache,
) -> (r: Option<Result<(), ()>>)
    ensures
        is_step(
            r,
            state_of(*final(bindings), *final(cache)),
            unify_seq(
                depth as nat,
                tys(actual@),
                tys(expected@),
                state_of(*old(bindings), *old(cache)),
            ),
        ),
    decreases depth, 1nat,
{
    let ghost xs = tys(actual@);
    let ghost ys = tys(expected@);
    let ghost whole = unify_seq(depth as nat, xs, ys, state_of(*bindings, *cache));
    let ghost mut manner = Manner::plain();
    let mut i: usize = 0;
    assert(xs.skip(0) =~= xs);
    assert(ys.skip(0) =~= ys);
    while i < actual.len() && i < expected.len()
        invariant
            i <= actual.len(),
            i <= expected.len(),
            xs == tys(actual@),
            ys == tys(expected@),
            whole == unify_seq(depth as nat, xs, ys, state_of(*old(bindings), *old(cache))),
            whole == after(
                manner,
                unify_seq(
                    depth as nat,
                    xs.skip(i as int),
                    ys.skip(i as int),
                    state_of(*bindings, *cache),
                ),
            ),
        decreases actual.len() - i,
    {
        let ghost s = state_of(*bindings, *cache);
        let ghost first = unify_types(depth as nat, xs[i as int], ys[i as int], s);
        proof {
            assert(xs[i as int] == actual@[i as int]@);
            assert(ys[i as int] == expected@[i as int]@);
            assert(xs.skip(i as int).skip(1) =~= xs.skip(i + 1));
            assert(ys.skip(i as int).skip(1) =~= ys.skip(i + 1));
        }
        let step = unify_at(depth, &actual[i], &expected[i], bindings, cache)?;
        if step.is_err() {
            return Some(step);
        }
        proof {
            manner = manner.and(first->0.manner);
        }
        i += 1;
    }
    Some(Ok(()))
}

/// `try_unify_type_variable_with_bindings` for types of any shape.
pub fn unify_variable_at(
    depth: u64,
    id: TypeVariableId,
    a: &Type,
    b: &Type,
    typevar_on_lhs: bool,
    bindings: &mut UnificationBindings,
    cache: &mut ModuleCache,
) -> (r: Option<Result<(), ()>>)
    ensures
        is_step(
            r,
            state_of(*final(bindings), *final(cache)),
            unify_variable(
                depth as nat,
                id,
                a@,
                b@,
                typevar_on_lhs,
                state_of(*old(bindings), *old(cache)),
            ),
        ),
    decreases depth, 1nat,
{
    if id.0 >= cache.type_bindings.len() {
        return None;
    }
    match find_binding(id, bindings, cache) {
        TypeBinding::Bound(binding) => if typevar_on_lhs {
            unify_at(depth, &binding, b, bindings, cache)
        } else {
            unify_at(depth, b, &binding, bindings, cache)
        },
        TypeBinding::Unbound(level, _) => {
            // No variable may be bound to itself.
            let b = follow_at(MAX_DEPTH, b, bindings, cache)?;
            if *a == b {
                return Some(Ok(()));
            }
            let result = occurs_helper(id, level, &b, bindings, RECURSION_LIMIT, cache)?;
            if result.occurs {
                Some(Err(()))
            } else {
                let mut levels = result.level_bindings;
                insert_binding(&mut bindings.bindings, id, b);
                bindings.level_bindings.append(&mut levels);
                Some(Ok(()))
            }
        },
    }
}

/// Unifies two rows of fields whose variables the cache leaves unbound.
pub fn bind_struct_fields(
    depth: u64,
    fields1: &Vec<Field>,
    fields2: &Vec<Field>,
    rest1: TypeVariableId,
    rest2: TypeVariableId,
    bindings: &mut UnificationBindings,
    cache: &mut ModuleCache,
) -> (r: Option<Result<(), ()>>)
    ensures
        is_step(
            r,
            state_of(*final(bindings), *final(cache)),
            unify_rows(
                depth as nat,
                row(fields1@),
                rest1,
                row(fields2@),
                rest2,
                state_of(*old(bindings), *old(cache)),
            ),
        ),
    decreases depth, 3nat,
{
    let mut new_fields = clone_fields(fields1);
    let step = merge_fields_at(depth, &mut new_fields, fields2, bindings, cache)?;
    if step.is_err() {
        return Some(step);
    }
    if new_fields.len() != fields1.len() && new_fields.len() != fields2.len() {
        let step = unify_variable_at(
            depth,
            rest1,
            &Type::TypeVariable(rest1),
            &Type::TypeVariable(rest2),
            true,
            bindings,
            cache,
        )?;
        if step.is_err() {
            return Some(step);
        }
        let new_rest = new_row_variable(rest1, rest2, cache)?;
        // The first row became the second, so that binding the second binds both.
        insert_binding(&mut bindings.bindings, rest2, Type::Struct(new_fields, new_rest));
        Some(Ok(()))
    } else if new_fields.len() != fields1.len() {
        let struct2 = Type::Struct(new_fields, rest2);
        unify_variable_at(
            depth,
            rest1,
            &Type::TypeVariable(rest1),
            &struct2,
            true,
            bindings,
            cache,
        )
    } else if new_fields.len() != fields2.len() {
        let struct1 = Type::Struct(new_fields, rest1);
        unify_variable_at(
            depth,
            rest2,
            &Type::TypeVariable(rest2),
            &struct1,
            false,
            bindings,
            cache,
        )
    } else {
        Some(Ok(()))
    }
}

/// Merges the fields of `fields2` into `new_fields`: unifies those that both have, and adds the
/// others.
fn merge_fields_at(
    depth: u64,
    new_fields: &mut Vec<Field>,
    fields2: &Vec<Field>,
    bindings: &mut UnificationBindings,
    cache: &mut ModuleCache,
) -> (r: Option<Result<(), ()>>)
    ensures
        match merge_rows(
            depth as nat,
            row(old(new_fields)@),
            row(fields2@),
            state_of(*old(bindings), *old(cache)),
        ) {
            Some((step, merged)) => is_step(
                r,
                state_of(*final(bindings), *final(cache)),
                Some(step),
            ) && row(final(new_fields)@) == merged,
            None => r is None,
        },
    decreases depth, 2nat,
{
    let ghost row2 = row(fields2@);
    let ghost whole = merge_rows(
        depth as nat,
        row(new_fields@),
        row2,
        state_of(*bindings, *cache),
    );
    let ghost mut manner = Manner::plain();
    let mut i: usize = 0;
    assert(row2.names.skip(0) =~= row2.names);
    assert(row2.types.skip(0) =~= row2.types);
    while i < fields2.len()
        invariant
            i <= fields2.len(),
            row2 == row(fields2@),
            whole == merge_rows(
                depth as nat,
                row(old(new_fields)@),
                row(fields2@),
                state_of(*old(bindings), *old(cache)),
            ),
            merged_after(
                manner,
                merge_rows(
                    depth as nat,
                    row(new_fields@),
                    Row {
                        names: row2.names.skip(i as int),
                        types: row2.types.skip(i as int),
                    },
                    state_of(*bindings, *cache),
                ),
            ) == whole,
        decreases fields2.len() - i,
    {
        let ghost s = state_of(*bindings, *cache);
        proof {
            assert(row2.names[i as int] == fields2@[i as int].name@);
            assert(row2.types[i as int] == fields2@[i as int].typ@);
            assert(row2.names.skip(i as int).skip(1) =~= row2.names.skip(i + 1));
            assert(row2.types.skip(i as int).skip(1) =~= row2.types.skip(i + 1));
        }
        match find_field(new_fields, &fields2[i].name) {
            Some(at) => {
                let ghost first = unify_types(
                    depth as nat,
                    new_fields@[at as int].typ@,
                    row2.types[i as int],
                    s,
                );
                assert(row(new_fields@).types[at as int] == new_fields@[at as int].typ@);
                let step = unify_at(
                    depth,
                    &new_fields[at].typ,
                    &fields2[i].typ,
                    bindings,
                    cache,
                )?;
                if step.is_err() {
                    return Some(step);
                }
                proof {
                    manner = manner.and(first->0.manner);
                }
            },
            None => {
                insert_field(new_fields, fields2[i].name.clone(), fields2[i].typ.clone());
            },
        }
        i += 1;
    }
    Some(Ok(()))
}

/// Unifies each field with the field of that name in the template.
pub fn bind_struct_fields_subset(
    depth: u64,
    fields: &Vec<Field>,
    template: &Vec<Field>,
    bindings: &mut UnificationBindings,
    cache: &mut ModuleCache,
) -> (r: Option<Result<(), ()>>)
    ensures
        is_step(
            r,
            state_of(*final(bindings), *final(cache)),
            if fields.len() > template.len() {
                failed(state_of(*old(bindings), *old(cache)))
            } else {
                unify_subset(
                    depth as nat,
                    row(fields@),
                    row(template@),
                    state_of(*old(bindings), *old(cache)),
                )
            },
        ),
    decreases depth, 2nat,
{
    if fields.len() > template.len() {
        return Some(Err(()));
    }
    let ghost fs = row(fields@);
    let ghost whole = unify_subset(
        depth as nat,
        fs,
        row(template@),
        state_of(*bindings, *cache),
    );
    let ghost mut manner = Manner::plain();
    let mut i: usize = 0;
    assert(fs.names.skip(0) =~= fs.names);
    assert(fs.types.skip(0) =~= fs.types);
    while i < fields.len()
        invariant
            i <= fields.len(),
            fields.len() <= template.len(),
            fs == row(fields@),
            whole == unify_subset(
                depth as nat,
                row(fields@),
                row(template@),
                state_of(*old(bindings), *old(cache)),
            ),
            whole == after(
                manner,
                unify_subset(
                    depth as nat,
                    Row { names: fs.names.skip(i as int), types: fs.types.skip(i as int) },
                    row(template@),
                    state_of(*bindings, *cache),
                ),
            ),
        decreases fields.len() - i,
    {
        let ghost s = state_of(*bindings, *cache);
        proof {
            assert(fs.names[i as int] == fields@[i as int].name@);
            assert(fs.types[i as int] == fields@[i as int].typ@);
            assert(fs.names.skip(i as int).skip(1) =~= fs.names.skip(i + 1));
            assert(fs.types.skip(i as int).skip(1) =~= fs.types.skip(i + 1));
        }
        match find_field(template, &fields[i].name) {
            Some(at) => {
                let ghost first = unify_types(
                    depth as nat,
                    template@[at as int].typ@,
                    fs.types[i as int],
                    s,
                );
                assert(row(template@).types[at as int] == template@[at as int].typ@);
                let step = unify_at(depth, &template[at].typ, &fields[i].typ, bindings, cache)?;
                if step.is_err() {
                    return Some(step);
                }
                proof {
                    manner = manner.and(first->0.manner);
                }
            },
            None => {
                return Some(Err(()));
            },
        }
        i += 1;
    }
    Some(Ok(()))
}

/// Unifies a row of fields, whose variable the cache leaves unbound, with a type that is no row.
fn unify_struct_at(
    depth: u64,
    fields: &Vec<Field>,
    rest: TypeVariableId,
    other: &Type,
    bindings: &mut UnificationBindings,
    cache: &mut ModuleCache,
) -> (r: Option<Result<(), ()>>)
    ensures
        is_step(
            r,
            state_of(*final(bindings), *final(cache)),
            unify_row_with(
                depth as nat,
                row(fields@),
                rest,
                other@,
                state_of(*old(bindings), *old(cache)),
            ),
        ),
    decreases depth, 3nat,
{
    let args: Vec<Type> = Vec::new();
    assert(tys(args@) =~= Seq::empty());
    let template = match get_fields(MAX_DEPTH, other, &args, bindings, cache)? {
        Ok(template) => template,
        Err(()) => {
            return Some(Err(()));
        },
    };
    let step = bind_struct_fields_subset(depth, fields, &template, bindings, cache)?;
    if step.is_err() {
        return Some(step);
    }
    insert_binding(&mut bindings.bindings, rest, other.clone());
    Some(Ok(()))
}

/// Unifies two rows of effects.
pub fn unify_effects_at(
    depth: u64,
    effects1: &EffectSet,
    effects2: &EffectSet,
    bindings: &mut UnificationBindings,
    cache: &mut ModuleCache,
) -> (r: Option<Result<(), ()>>)
    ensures
        is_step(
            r,
            state_of(*final(bindings), *final(cache)),
            unify_effects(
                depth as nat,
                effect_tys(effects1.effects@),
                effects1.extension,
                effect_tys(effects2.effects@),
                effects2.extension,
                state_of(*old(bindings), *old(cache)),
            ),
        ),
    decreases depth, 3nat,
{
    let set1 = flatten_at(MAX_DEPTH, &effects1.effects, effects1.extension, bindings, cache)?;
    let set2 = flatten_at(MAX_DEPTH, &effects2.effects, effects2.extension, bindings, cache)?;
    let step = unify_common_at(depth, &set1.effects, &set2.effects, bindings, cache)?;
    if step.is_err() {
        return Some(step);
    }
    let only1 = without_effects(&set1.effects, &set2.effects);
    let only2 = without_effects(&set2.effects, &set1.effects);
    assert(effect_tys(only1@).len() == only1.len());
    assert(effect_tys(only2@).len() == only2.len());
    match (set1.extension, set2.extension) {
        (None, None) => if only1.len() == 0 && only2.len() == 0 {
            Some(Ok(()))
        } else {
            Some(Err(()))
        },
        (Some(x), None) => if only1.len() == 0 {
            let row = Type::Effects(EffectSet { effects: only2, extension: None });
            unify_variable_at(depth, x, &Type::TypeVariable(x), &row, true, bindings, cache)
        } else {
            Some(Err(()))
        },
        (None, Some(y)) => if only2.len() == 0 {
            let row = Type::Effects(EffectSet { effects: only1, extension: None });
            unify_variable_at(depth, y, &Type::TypeVariable(y), &row, true, bindings, cache)
        } else {
            Some(Err(()))
        },
        (Some(x), Some(y)) => if only1.len() == 0 && only2.len() == 0 {
            unify_variable_at(
                depth,
                x,
                &Type::TypeVariable(x),
                &Type::TypeVariable(y),
                true,
                bindings,
                cache,
            )
        } else if x == y {
            Some(Err(()))
        } else {
            let z = new_row_variable(x, y, cache)?;
            let row1 = Type::Effects(EffectSet { effects: only2, extension: Some(z) });
            let row2 = Type::Effects(EffectSet { effects: only1, extension: Some(z) });
            let step = unify_variable_at(
                depth,
                x,
                &Type::TypeVariable(x),
                &row1,
                true,
                bindings,
                cache,
            )?;
            if step.is_err() {
                return Some(step);
            }
            unify_variable_at(depth, y, &Type::TypeVariable(y), &row2, true, bindings, cache)
        },
    }
}

/// Unifies the arguments of each effect with those of the first other effect of the same id.
fn unify_common_at(
    depth: u64,
    effects: &Vec<Effect>,
    others: &Vec<Effect>,
    bindings: &mut UnificationBindings,
    cache: &mut ModuleCache,
) -> (r: Option<Result<(), ()>>)
    ensures
        is_step(
            r,
            state_of(*final(bindings), *final(cache)),
            unify_common(
                depth as nat,
                effect_tys(effects@),
                effect_tys(others@),
                state_of(*old(bindings), *old(cache)),
            ),
        ),
    decreases depth, 2nat,
{
    let ghost es = effect_tys(effects@);
    let ghost os = effect_tys(others@);
    let ghost whole = unify_common(depth as nat, es, os, state_of(*bindings, *cache));
    let ghost mut manner = Manner::plain();
    let mut i: usize = 0;
    assert(es.skip(0) =~= es);
    while i < effects.len()
        invariant
            i <= effects.len(),
            es == effect_tys(effects@),
            os == effect_tys(others@),
            whole == unify_common(
                depth as nat,
                effect_tys(effects@),
                effect_tys(others@),
                state_of(*old(bindings), *old(cache)),
            ),
            whole == after(
                manner,
                unify_common(depth as nat, es.skip(i as int), os, state_of(*bindings, *cache)),
            ),
        decreases effects.len() - i,
    {
        let ghost s = state_of(*bindings, *cache);
        proof {
            assert(es[i as int] == effects@[i as int]@);
            assert(es.skip(i as int).skip(1) =~= es.skip(i + 1));
        }
        match position_of_effect(others, effects[i].id) {
            None => {},
            Some(at) => {
                assert(os[at as int] == others@[at as int]@);
                if effects[i].args.len() != others[at].args.len() {
                    return Some(Err(()));
                }
                let ghost first = unify_seq(
                    depth as nat,
                    tys(effects@[i as int].args@),
                    tys(others@[at as int].args@),
                    s,
                );
                let step = unify_types_at(
                    depth,
                    &effects[i].args,
                    &others[at].args,
                    bindings,
                    cache,
                )?;
                if step.is_err() {
                    return Some(step);
                }
                proof {
                    manner = manner.and(first->0.manner);
                }
            },
        }
        i += 1;
    }
    Some(Ok(()))
}

} // verus!
