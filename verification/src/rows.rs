//! Rows of named fields, kept in the order of their names.

use crate::types::{field_names, field_tys, Field, Ty, Type};
use vstd::prelude::*;
use vstd::string::*;

verus! {

/// The order of field names: lexicographic, character by character.
pub open spec fn name_less(a: Seq<char>, b: Seq<char>) -> bool
    decreases a.len(),
{
    if b.len() == 0 {
        false
    } else if a.len() == 0 {
        true
    } else if a[0] == b[0] {
        name_less(a.skip(1), b.skip(1))
    } else {
        a[0] < b[0]
    }
}

/// The model of a vector of fields.
#[verifier::ext_equal]
pub struct Row {
    pub names: Seq<Seq<char>>,
    pub types: Seq<Ty>,
}

/// The position of the first entry with the given name.
pub open spec fn find_name(names: Seq<Seq<char>>, name: Seq<char>) -> Option<int>
    decreases names.len(),
{
    if names.len() == 0 {
        None
    } else {
        match find_name(names.drop_last(), name) {
            Some(i) => Some(i),
            None => if names.last() == name {
                Some(names.len() - 1)
            } else {
                None
            },
        }
    }
}

/// How many names at the front come before the given one.
pub open spec fn place_of(names: Seq<Seq<char>>, name: Seq<char>) -> int
    decreases names.len(),
{
    if names.len() == 0 {
        0
    } else if place_of(names.drop_last(), name) == names.len() - 1 && name_less(
        names.last(),
        name,
    ) {
        names.len() as int
    } else {
        place_of(names.drop_last(), name)
    }
}

impl Row {
    /// The type of the field of that name.
    pub open spec fn get(self, name: Seq<char>) -> Option<Ty> {
        match find_name(self.names, name) {
            Some(i) => Some(self.types[i]),
            None => None,
        }
    }

    /// The row with the field set to the given type: in its place if the row has it, else at the
    /// place where its name belongs.
    pub open spec fn insert(self, name: Seq<char>, typ: Ty) -> Row {
        match find_name(self.names, name) {
            Some(i) => Row { names: self.names, types: self.types.update(i, typ) },
            None => {
                let at = place_of(self.names, name);
                Row { names: self.names.insert(at, name), types: self.types.insert(at, typ) }
            },
        }
    }

    /// The row is ordered by name, no name occurs twice, and each field has a type.
    pub open spec fn sorted(self) -> bool {
        &&& self.names.len() == self.types.len()
        &&& forall|i: int, j: int|
            0 <= i < j < self.names.len() ==> #[trigger] name_less(self.names[i], self.names[j])
    }
}

/// The model of a row of fields.
pub open spec fn row(fields: Seq<Field>) -> Row {
    Row { names: field_names(fields), types: field_tys(fields) }
}

/// Whether the name `a` comes before the name `b`.
pub fn name_is_less(a: &String, b: &String) -> (r: bool)
    ensures
        r == name_less(a@, b@),
{
    let n: usize = a.as_str().unicode_len();
    let m: usize = b.as_str().unicode_len();
    let mut i: usize = 0;
    assert(a@.skip(0) =~= a@);
    assert(b@.skip(0) =~= b@);
    while i < n && i < m
        invariant
            n == a@.len(),
            m == b@.len(),
            i <= n,
            i <= m,
            name_less(a@, b@) == name_less(a@.skip(i as int), b@.skip(i as int)),
        decreases n - i,
    {
        let x: char = a.as_str().get_char(i);
        let y: char = b.as_str().get_char(i);
        if x != y {
            return x < y;
        }
        assert(a@.skip(i as int).skip(1) =~= a@.skip(i + 1));
        assert(b@.skip(i as int).skip(1) =~= b@.skip(i + 1));
        i += 1;
    }
    i < m
}

/// The name that is found is the first one.
pub proof fn lemma_find_name(names: Seq<Seq<char>>, name: Seq<char>)
    ensures
        match find_name(names, name) {
            Some(i) => 0 <= i < names.len() && names[i] == name && forall|j: int|
                0 <= j < i ==> names[j] != name,
            None => forall|j: int| 0 <= j < names.len() ==> names[j] != name,
        },
    decreases names.len(),
{
    if names.len() > 0 {
        lemma_find_name(names.drop_last(), name);
        assert forall|j: int| 0 <= j < names.len() - 1 implies names.drop_last()[j]
            == names[j] by {}
    }
}

/// The names before the place of a name are less than it, and the one there is not.
pub proof fn lemma_place_of(names: Seq<Seq<char>>, name: Seq<char>)
    ensures
        0 <= place_of(names, name) <= names.len(),
        forall|j: int| 0 <= j < place_of(names, name) ==> name_less(#[trigger] names[j], name),
        place_of(names, name) < names.len() ==> !name_less(names[place_of(names, name)], name),
    decreases names.len(),
{
    if names.len() > 0 {
        lemma_place_of(names.drop_last(), name);
        assert forall|j: int| 0 <= j < names.len() - 1 implies names.drop_last()[j]
            == names[j] by {}
        assert forall|j: int| 0 <= j < place_of(names, name) implies name_less(
            #[trigger] names[j],
            name,
        ) by {
            if j < names.len() - 1 {
                assert(names.drop_last()[j] == names[j]);
            }
        }
    }
}

/// The position of the field with the given name.
pub fn find_field(fields: &Vec<Field>, name: &String) -> (r: Option<usize>)
    ensures
        match r {
            Some(i) => i < fields.len() && find_name(field_names(fields@), name@) == Some(i as int),
            None => find_name(field_names(fields@), name@) is None,
        },
{
    let ghost names = field_names(fields@);
    let mut i: usize = 0;
    while i < fields.len()
        invariant
            i <= fields.len(),
            names == field_names(fields@),
            forall|j: int| 0 <= j < i ==> names[j] != name@,
        decreases fields.len() - i,
    {
        assert(names[i as int] == fields[i as int].name@);
        if fields[i].name == *name {
            proof {
                lemma_find_name(names, name@);
            }
            return Some(i);
        }
        i += 1;
    }
    proof {
        lemma_find_name(names, name@);
    }
    None
}

/// Sets the field of the given name, adding it in its place if there is none.
pub fn insert_field(fields: &mut Vec<Field>, name: String, typ: Type)
    ensures
        row(final(fields)@) == row(old(fields)@).insert(name@, typ@),
{
    let ghost before = fields@;
    match find_field(fields, &name) {
        Some(i) => {
            fields.set(i, Field { name, typ });
            proof {
                lemma_find_name(field_names(before), name@);
                assert(field_names(fields@) =~= field_names(before));
                assert(field_tys(fields@) =~= field_tys(before).update(i as int, typ@));
            }
        },
        None => {
            let mut at: usize = 0;
            let ghost names = field_names(before);
            while at < fields.len() && name_is_less(&fields[at].name, &name)
                invariant
                    at <= fields.len(),
                    fields@ == before,
                    names == field_names(before),
                    forall|j: int| 0 <= j < at ==> name_less(#[trigger] names[j], name@),
                decreases fields.len() - at,
            {
                assert(names[at as int] == fields@[at as int].name@);
                at += 1;
            }
            proof {
                lemma_place_of(names, name@);
                if at < names.len() {
                    assert(names[at as int] == before[at as int].name@);
                }
                assert(at == place_of(names, name@));
            }
            fields.insert(at, Field { name, typ });
            proof {
                assert(field_names(fields@) =~= names.insert(at as int, name@));
                assert(field_tys(fields@) =~= field_tys(before).insert(at as int, typ@));
            }
        },
    }
}

} // verus!
