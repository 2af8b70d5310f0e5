//! Access to the members of values, and assignment.

use crate::cache::{Cache, Location, ModuleCache, Reason, TypeErrorKind};
use crate::expressions::{reference_typed, share, shared_reference, type_reference};
use crate::instantiate::{ref_of, reference_to, Mutability};
use crate::patterns::{opt_ty, Pattern};
use crate::results::{combined_results, unit_ty, TypeResult};
use crate::rules::{
    apply_to_one, assignment_reported, at_one, check_field_access_lhs_is_mutable,
    issue_assignment_error, mut_polymorphically_shared_ref, mutable_ref, place_checked, Place,
};
use crate::solve::{fresh_unification, mismatch, try_unify_at};
use crate::subst::next_type_variable;
use crate::tree::{
    infer, inferred, Expression, Inferable, Locatable, Node, Outcome, Referred, Tree, Typed,
};
use crate::types::{field_names, field_tys, Field, Ty, Type, TypeTag, TypeVariableId};
use vstd::prelude::*;

verus! {

/// The access to a field, or to a reference to it.
#[derive(Debug)]
pub struct MemberAccess<A> {
    pub lhs: Box<A>,
    pub field: String,
    pub offset: Option<Mutability>,
    pub location: Location,
    pub typ: Option<Type>,
}

impl<A: Node> Node for MemberAccess<A> {
    open spec fn tree(&self) -> Tree {
        Tree::MemberAccess {
            lhs: Box::new(self.lhs.tree()),
            field: self.field@,
            offset: self.offset,
            location: self.location,
            typ: opt_ty(self.typ),
        }
    }
}

impl<A: Node> Locatable for MemberAccess<A> {
    fn locate(&self) -> (r: Location) {
        self.location
    }
}

impl<A: Node> Typed for MemberAccess<A> {
    fn get_type(&self) -> (r: Option<&Type>) {
        self.typ.as_ref()
    }

    fn set_type(&mut self, typ: Type) {
        self.typ = Some(typ);
    }
}

/// The type of all that has the given field: a row of that field, and others.
pub open spec fn row_with(field: Seq<char>, typ: Ty, rest: TypeVariableId) -> Ty {
    Ty::Struct(seq![field], seq![typ], rest)
}

/// What asking for a field makes of the cache, where `typ` is the type of the value and `row` that
/// of what has the field. The value has the field itself, or else it is a reference to what has it:
/// a mutable one if a mutable reference to the field is asked for. Where neither is so, that is
/// reported; where an immutable reference has the field, the missing mutability is.
pub open spec fn field_found(
    typ: Ty,
    row: Ty,
    field: Seq<char>,
    offset: Option<Mutability>,
    place: Place,
    location: Location,
    lhs_location: Location,
    c: Cache,
) -> Option<Cache> {
    match fresh_unification(typ, row, c) {
        None => None,
        Some(step) => if step.ok {
            let checked = if offset == Some(Mutability::Mutable) {
                place_checked(place, false, step.state.cache)
            } else {
                Some(step.state.cache)
            };
            match checked {
                None => None,
                Some(c1) => Some(c1.perform(step.state.solution)),
            }
        } else {
            let wanted = match offset {
                Some(mutability) => mutability,
                None => Mutability::Immutable,
            };
            let (reference, c1) = reference_to(wanted, row, step.state.cache);
            match fresh_unification(typ, reference, c1) {
                None => None,
                Some(step2) => if step2.ok {
                    Some(step2.state.cache.perform(step2.state.solution))
                } else {
                    let (immutable, c2) = reference_to(
                        Mutability::Immutable,
                        row,
                        step2.state.cache,
                    );
                    match fresh_unification(typ, immutable, c2) {
                        None => None,
                        Some(step3) => {
                            let issue = if step3.ok {
                                mismatch(
                                    lhs_location,
                                    Reason::ExpectedMutable,
                                    typ,
                                    reference,
                                    step2.state.cache,
                                )
                            } else {
                                mismatch(
                                    location,
                                    Reason::NoFieldOfType(field),
                                    typ,
                                    row,
                                    step.state.cache,
                                )
                            };
                            Some(step3.state.cache.with_issue(issue))
                        },
                    }
                },
            }
        },
    }
}

/// The type of an access to a field of the given type: a reference to it if one is asked for.
pub open spec fn access_type(offset: Option<Mutability>, typ: Ty, c: Cache) -> (Ty, Cache) {
    match offset {
        Some(mutability) => reference_to(mutability, typ, c),
        None => (typ, c),
    }
}

impl<A: Expression> Inferable for MemberAccess<A> {
    open spec fn rule(t: Tree, c: Cache) -> Option<Outcome> {
        match t {
            Tree::MemberAccess { lhs, field, offset, location, typ } => match inferred::<A>(
                *lhs,
                c,
            ) {
                None => None,
                Some(o) => {
                    let level = o.cache.current_level;
                    let field_type = Ty::Variable(o.cache.next_id());
                    let c1 = o.cache.fresh(level);
                    let row = row_with(field, field_type, c1.next_id());
                    match field_found(
                        o.result.typ,
                        row,
                        field,
                        offset,
                        o.tree.place_of(),
                        location,
                        o.tree.location_of(),
                        c1.fresh(level),
                    ) {
                        None => None,
                        Some(c2) => {
                            let (accessed, cache) = access_type(offset, field_type, c2);
                            Some(
                                Outcome {
                                    tree: Tree::MemberAccess {
                                        lhs: Box::new(o.tree),
                                        field,
                                        offset,
                                        location,
                                        typ,
                                    },
                                    result: o.result.with_type(accessed),
                                    cache,
                                },
                            )
                        },
                    }
                },
            },
            _ => None,
        }
    }

    fn infer_impl(&mut self, cache: &mut ModuleCache) -> (r: Option<TypeResult>) {
        let result = infer(&mut *self.lhs, cache)?;
        let level = cache.current_level;
        let field_type = cache.next_type_variable(level);
        // The variable that stands for the other fields.
        let rho = cache.next_type_variable_id(level);
        let struct_type = make_row(self.field.clone(), field_type.clone(), rho);
        find_member(
            &result.typ,
            &struct_type,
            &self.field,
            self.offset,
            self.lhs.place(),
            self.location,
            self.lhs.locate(),
            cache,
        )?;
        let accessed = match self.offset {
            Some(mutability) => ref_of(mutability, field_type, cache),
            None => field_type,
        };
        Some(result.with_type(accessed))
    }
}

/// The type of all that has the given field.
fn make_row(name: String, typ: Type, rest: TypeVariableId) -> (r: Type)
    ensures
        r@ == row_with(name@, typ@, rest),
{
    let fields = vec![Field { name, typ }];
    proof {
        assert(fields@[0].name@ == name@);
        assert(field_names(fields@) =~= seq![name@]);
        assert(field_tys(fields@) =~= seq![typ@]);
    }
    Type::Struct(fields, rest)
}

/// Finds the field in a value of type `typ`, or in what it refers to.
fn find_member(
    typ: &Type,
    row: &Type,
    field: &String,
    offset: Option<Mutability>,
    place: Place,
    location: Location,
    lhs_location: Location,
    cache: &mut ModuleCache,
) -> (r: Option<()>)
    ensures
        match field_found(
            typ@,
            row@,
            field@,
            offset,
            place,
            location,
            lhs_location,
            old(cache)@,
        ) {
            None => r is None,
            Some(c) => r is Some && final(cache)@ == c,
        },
{
    let kind = TypeErrorKind::NoFieldOfType(field.clone());
    let error_without_deref = match try_unify_at(typ, row, location, cache, kind)? {
        Ok(bindings) => {
            // What is to be mutated through the access must be mutable.
            if offset == Some(Mutability::Mutable) {
                check_field_access_lhs_is_mutable(place, false, cache)?;
            }
            bindings.perform(cache);
            return Some(());
        },
        Err(error) => error,
    };
    let wanted = match offset {
        Some(mutability) => mutability,
        None => Mutability::Immutable,
    };
    let reference = ref_of(wanted, row.clone(), cache);
    let error_with_deref = match try_unify_at(
        typ,
        &reference,
        lhs_location,
        cache,
        TypeErrorKind::ExpectedMutable,
    )? {
        Ok(bindings) => {
            bindings.perform(cache);
            return Some(());
        },
        Err(error) => error,
    };
    // Only whether an immutable reference would do is of interest here.
    let immutable = ref_of(Mutability::Immutable, row.clone(), cache);
    match try_unify_at(typ, &immutable, lhs_location, cache, TypeErrorKind::ExpectedMutable)? {
        Ok(_) => {
            cache.push_full_diagnostic(error_with_deref);
        },
        Err(_) => {
            cache.push_full_diagnostic(error_without_deref);
        },
    }
    Some(())
}

impl<A: Expression> Expression for MemberAccess<A> {
    fn place(&self) -> (r: Place) {
        Place::MemberAccess
    }

    fn as_lambda(&self) -> (r: Option<(&Vec<Pattern>, Option<&Type>)>) {
        None
    }
}

/// A reference that is not written: it stands in the place of the expression it refers to.
#[derive(Debug)]
pub struct ImplicitReference {
    pub mutability: Mutability,
    pub location: Location,
    pub typ: Option<Type>,
}

impl View for ImplicitReference {
    type V = Referred;

    open spec fn view(&self) -> Referred {
        Referred { mutability: self.mutability, location: self.location, typ: opt_ty(self.typ) }
    }
}

/// The model of references.
pub open spec fn all_referred(v: Seq<ImplicitReference>) -> Seq<Referred> {
    Seq::new(v.len(), |i: int| v[i]@)
}

/// An assignment.
#[derive(Debug)]
pub struct Assignment<A> {
    pub lhs: Box<A>,
    /// The references to the left-hand side that stand in its place, the innermost first. An
    /// assignment as it is written has none. Inference may put one there.
    pub references: Vec<ImplicitReference>,
    pub rhs: Box<A>,
    pub location: Location,
    pub typ: Option<Type>,
}

impl<A: Node> Node for Assignment<A> {
    open spec fn tree(&self) -> Tree {
        Tree::Assignment {
            lhs: Box::new(self.lhs.tree()),
            references: all_referred(self.references@),
            rhs: Box::new(self.rhs.tree()),
            location: self.location,
            typ: opt_ty(self.typ),
        }
    }
}

impl<A: Node> Locatable for Assignment<A> {
    fn locate(&self) -> (r: Location) {
        self.location
    }
}

impl<A: Node> Typed for Assignment<A> {
    fn get_type(&self) -> (r: Option<&Type>) {
        self.typ.as_ref()
    }

    fn set_type(&mut self, typ: Type) {
        self.typ = Some(typ);
    }
}

/// The mutable reference that stands in the place of what is assigned to. Like every node, it
/// carries a type once inference is done: that of a shared reference to what has the type `lhs`, as
/// a reference that is written has.
pub open spec fn implicit_reference(lhs: Ty, location: Location, c: Cache) -> (Referred, Cache) {
    let (typ, c1) = shared_reference(TypeTag::Mutable, lhs, c);
    (Referred { mutability: Mutability::Mutable, location, typ: Some(typ) }, c1)
}

/// What stands inside the reference in position `n`: what the left-hand side refers to, or the
/// temporary value that the reference before it is.
pub open spec fn place_inside(n: int, references: Seq<Referred>, lhs: Place) -> Place {
    if n > 0 {
        Place::Temporary(references[n - 1].location)
    } else {
        lhs
    }
}

/// What inferring the first `n` references to a left-hand side of the given type comes to, from the
/// innermost on: the references with their types, the type of the last one and the cache.
pub open spec fn references_inferred(
    n: nat,
    references: Seq<Referred>,
    lhs: Place,
    typ: Ty,
    c: Cache,
) -> Option<(Seq<Referred>, Ty, Cache)>
    decreases n,
{
    if n == 0 {
        Some((Seq::empty(), typ, c))
    } else {
        match references_inferred((n - 1) as nat, references, lhs, typ, c) {
            None => None,
            Some((done, t, c1)) => {
                let r = references[n - 1];
                match reference_typed(
                    r.mutability,
                    place_inside(n - 1, references, lhs),
                    t,
                    c1,
                ) {
                    None => None,
                    Some((u, c2)) => Some((done.push(Referred { typ: Some(u), ..r }), u, c2)),
                }
            },
        }
    }
}

/// Once a reference cannot be inferred, nothing comes after it.
proof fn lemma_references_none(
    n: nat,
    m: nat,
    references: Seq<Referred>,
    lhs: Place,
    typ: Ty,
    c: Cache,
)
    requires
        n <= m,
        references_inferred(n, references, lhs, typ, c) is None,
    ensures
        references_inferred(m, references, lhs, typ, c) is None,
    decreases m,
{
    if n < m {
        lemma_references_none(n, (m - 1) as nat, references, lhs, typ, c);
    }
}

/// Inferring references changes their types only.
pub proof fn lemma_references_stay(
    n: nat,
    references: Seq<Referred>,
    lhs: Place,
    typ: Ty,
    c: Cache,
)
    requires
        n <= references.len(),
        references_inferred(n, references, lhs, typ, c) is Some,
    ensures
        ({
            let (done, _, _) = references_inferred(n, references, lhs, typ, c)->0;
            &&& done.len() == n
            &&& forall|i: int|
                0 <= i < n ==> (#[trigger] done[i]).location == references[i].location
                    && done[i].mutability == references[i].mutability && done[i].typ is Some
        }),
    decreases n,
{
    if n > 0 {
        lemma_references_stay((n - 1) as nat, references, lhs, typ, c);
    }
}

/// What assigning a value of type `rhs` to what has type `lhs` makes of the cache, and the
/// reference that is put in the place of the left-hand side, if any: where the left-hand side has
/// the type of the value it has to be mutable, and is assigned to through a mutable reference.
/// Else it has to be a mutable reference to such values itself.
pub open spec fn assigned(
    lhs: Ty,
    place: Place,
    lhs_location: Location,
    rhs: Ty,
    location: Location,
    c: Cache,
) -> Option<(Option<Referred>, Cache)> {
    match fresh_unification(lhs, rhs, c) {
        None => None,
        Some(step) => if step.ok {
            match place_checked(place, false, step.state.cache) {
                None => None,
                Some(c1) => {
                    let (reference, c2) = implicit_reference(
                        lhs,
                        location,
                        c1.perform(step.state.solution),
                    );
                    Some((Some(reference), c2))
                },
            }
        } else {
            let (constructor, c1) = mutable_ref(step.state.cache);
            match fresh_unification(lhs, at_one(constructor, rhs), c1) {
                None => None,
                Some(step2) => if step2.ok {
                    Some((None, step2.state.cache.perform(step2.state.solution)))
                } else {
                    match assignment_reported(
                        lhs,
                        lhs_location,
                        rhs,
                        location,
                        step2.state.cache,
                    ) {
                        None => None,
                        Some(c2) => Some((None, c2)),
                    }
                },
            }
        },
    }
}

impl<A: Expression> Inferable for Assignment<A> {
    open spec fn rule(t: Tree, c: Cache) -> Option<Outcome> {
        match t {
            Tree::Assignment { lhs, references, rhs, location, typ } => match inferred::<A>(
                *lhs,
                c,
            ) {
                None => None,
                Some(o1) => match references_inferred(
                    references.len(),
                    references,
                    o1.tree.place_of(),
                    o1.result.typ,
                    o1.cache,
                ) {
                    None => None,
                    Some((referred, lhs_typ, c1)) => match inferred::<A>(*rhs, c1) {
                        None => None,
                        Some(o2) => match combined_results(
                            o1.result.with_type(lhs_typ),
                            o2.result,
                            o2.cache,
                        ) {
                            None => None,
                            Some((joint, c2)) => match assigned(
                                joint.typ,
                                place_inside(
                                    references.len() as int,
                                    references,
                                    o1.tree.place_of(),
                                ),
                                if references.len() > 0 {
                                    references.last().location
                                } else {
                                    o1.tree.location_of()
                                },
                                o2.result.typ,
                                location,
                                c2,
                            ) {
                                None => None,
                                Some((reference, cache)) => Some(
                                    Outcome {
                                        tree: Tree::Assignment {
                                            lhs: Box::new(o1.tree),
                                            references: match reference {
                                                Some(r) => referred.push(r),
                                                None => referred,
                                            },
                                            rhs: Box::new(o2.tree),
                                            location,
                                            typ,
                                        },
                                        result: joint.with_type(unit_ty()),
                                        cache,
                                    },
                                ),
                            },
                        },
                    },
                },
            },
            _ => None,
        }
    }

    fn infer_impl(&mut self, cache: &mut ModuleCache) -> (r: Option<TypeResult>) {
        let result = infer(&mut *self.lhs, cache)?;
        let ghost before = all_referred(self.references@);
        let lhs_type = infer_references(
            &mut self.references,
            self.lhs.place(),
            &result.typ,
            cache,
        )?;
        let mut result = result.with_type(lhs_type);
        let mut rhs = infer(&mut *self.rhs, cache)?;
        result.combine(&mut rhs, cache)?;
        let n: usize = self.references.len();
        let (place, lhs_location) = if n > 0 {
            let location = self.references[n - 1].location;
            assert(all_referred(self.references@)[n - 1].location == location);
            assert(before[n - 1].location == location);
            (Place::Temporary(location), location)
        } else {
            (self.lhs.place(), self.lhs.locate())
        };
        let reference = assign(
            &result.typ,
            place,
            lhs_location,
            &rhs.typ,
            self.location,
            cache,
        )?;
        let ghost done = all_referred(self.references@);
        if let Some(reference) = reference {
            let ghost last = reference@;
            self.references.push(reference);
            assert(all_referred(self.references@) =~= done.push(last));
        }
        Some(result.with_type(Type::unit()))
    }
}

/// Infers the references to a left-hand side of the given type, from the innermost on, and notes
/// their types. Gives the type of the last one.
fn infer_references(
    references: &mut Vec<ImplicitReference>,
    lhs: Place,
    typ: &Type,
    cache: &mut ModuleCache,
) -> (r: Option<Type>)
    ensures
        match references_inferred(
            old(references)@.len(),
            all_referred(old(references)@),
            lhs,
            typ@,
            old(cache)@,
        ) {
            None => r is None,
            Some((done, t, c)) => r is Some && r->0@ == t && all_referred(final(references)@)
                == done && final(cache)@ == c,
        },
        r is Some ==> final(references)@.len() == old(references)@.len() && forall|i: int|
            0 <= i < final(references)@.len() ==> (#[trigger] all_referred(
                final(references)@,
            )[i]).location == all_referred(old(references)@)[i].location,
{
    let ghost all = all_referred(references@);
    let ghost c0 = cache@;
    let n: usize = references.len();
    let mut current = typ.clone();
    let mut place = lhs;
    let mut i: usize = 0;
    assert(all_referred(references@).take(0) =~= Seq::empty());
    while i < n
        invariant
            i <= n,
            n == all.len(),
            n == references.len(),
            n == old(references)@.len(),
            all == all_referred(old(references)@),
            c0 == old(cache)@,
            place == place_inside(i as int, all, lhs),
            references_inferred(i as nat, all, lhs, typ@, c0) == Some(
                (all_referred(references@).take(i as int), current@, cache@),
            ),
            forall|j: int| i <= j < n ==> all_referred(references@)[j] == #[trigger] all[j],
        decreases n - i,
    {
        let ghost before = all_referred(references@);
        assert(before[i as int] == all[i as int]);
        let mutability = references[i].mutability;
        let location = references[i].location;
        let typed = type_reference(mutability, place, &current, cache);
        match typed {
            None => {
                proof {
                    lemma_references_none((i + 1) as nat, n as nat, all, lhs, typ@, c0);
                }
                return None;
            },
            Some(next) => {
                let reference = ImplicitReference {
                    mutability,
                    location,
                    typ: Some(next.clone()),
                };
                let ghost r = reference@;
                references.set(i, reference);
                proof {
                    assert(all_referred(references@) =~= before.update(i as int, r));
                    assert(all_referred(references@).take(i + 1) =~= before.take(i as int).push(r));
                }
                current = next;
                place = Place::Temporary(location);
            },
        }
        i += 1;
    }
    assert(all_referred(references@).take(n as int) =~= all_referred(references@));
    proof {
        lemma_references_stay(n as nat, all, lhs, typ@, c0);
    }
    Some(current)
}

/// Assigns a value of one type to what has the other. Gives the mutable reference that is put in
/// the place of the left-hand side, if any.
fn assign(
    lhs: &Type,
    place: Place,
    lhs_location: Location,
    rhs: &Type,
    location: Location,
    cache: &mut ModuleCache,
) -> (r: Option<Option<ImplicitReference>>)
    ensures
        match assigned(lhs@, place, lhs_location, rhs@, location, old(cache)@) {
            None => r is None,
            Some((reference, c)) => r is Some && final(cache)@ == c && match reference {
                Some(referred) => r->0 is Some && r->0->0@ == referred,
                None => r->0 is None,
            },
        },
{
    if let Ok(bindings) = try_unify_at(lhs, rhs, location, cache, TypeErrorKind::NeverShown)? {
        check_field_access_lhs_is_mutable(place, false, cache)?;
        bindings.perform(cache);
        return Some(Some(refer_to(lhs, location, cache)));
    }
    let constructor = mut_polymorphically_shared_ref(cache);
    let mutref = apply_to_one(constructor, rhs.clone());
    match try_unify_at(lhs, &mutref, location, cache, TypeErrorKind::NeverShown)? {
        Ok(bindings) => {
            bindings.perform(cache);
        },
        Err(_) => {
            issue_assignment_error(lhs, lhs_location, rhs, location, cache)?;
        },
    }
    Some(None)
}

/// The mutable reference to what is assigned to.
fn refer_to(lhs: &Type, location: Location, cache: &mut ModuleCache) -> (r: ImplicitReference)
    ensures
        (r@, final(cache)@) == implicit_reference(lhs@, location, old(cache)@),
{
    let typ = share(TypeTag::Mutable, lhs, cache);
    ImplicitReference { mutability: Mutability::Mutable, location, typ: Some(typ) }
}

impl<A: Expression> Expression for Assignment<A> {
    fn place(&self) -> (r: Place) {
        Place::Temporary(self.location)
    }

    fn as_lambda(&self) -> (r: Option<(&Vec<Pattern>, Option<&Type>)>) {
        None
    }
}

} // verus!
