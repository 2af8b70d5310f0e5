//! Rows behave as maps ordered by name: what an insertion changes, and that it keeps the order.

use crate::rows::{find_name, lemma_find_name, lemma_place_of, name_less, place_of, Row};
use crate::types::Ty;
use vstd::prelude::*;

verus! {

/// No name comes before itself.
pub proof fn law_name_not_less_itself(a: Seq<char>)
    ensures
        !name_less(a, a),
    decreases a.len(),
{
    if a.len() > 0 {
        law_name_not_less_itself(a.skip(1));
    }
}

/// The order of names is transitive.
pub proof fn law_name_less_transitive(a: Seq<char>, b: Seq<char>, c: Seq<char>)
    requires
        name_less(a, b),
        name_less(b, c),
    ensures
        name_less(a, c),
    decreases a.len(),
{
    if a.len() > 0 && a[0] == b[0] && b[0] == c[0] {
        law_name_less_transitive(a.skip(1), b.skip(1), c.skip(1));
    }
}

/// Of two different names one comes before the other.
pub proof fn law_name_less_total(a: Seq<char>, b: Seq<char>)
    requires
        a != b,
    ensures
        name_less(a, b) || name_less(b, a),
    decreases a.len(),
{
    if a.len() == 0 {
        if b.len() == 0 {
            assert(a =~= b);
        }
    } else if b.len() > 0 && a[0] == b[0] {
        if a.skip(1) == b.skip(1) {
            assert(a.len() == a.skip(1).len() + 1);
            assert(b.len() == b.skip(1).len() + 1);
            assert forall|i: int| 0 <= i < a.len() implies a[i] == b[i] by {
                if i > 0 {
                    assert(a[i] == a.skip(1)[i - 1]);
                    assert(b[i] == b.skip(1)[i - 1]);
                }
            }
            assert(a =~= b);
        } else {
            law_name_less_total(a.skip(1), b.skip(1));
        }
    }
}

/// The first position of a name, told by what sets it apart.
pub proof fn lemma_find_name_is(names: Seq<Seq<char>>, name: Seq<char>, i: int)
    requires
        0 <= i < names.len(),
        names[i] == name,
        forall|j: int| 0 <= j < i ==> names[j] != name,
    ensures
        find_name(names, name) == Some(i),
{
    lemma_find_name(names, name);
}

/// A row gives back what was inserted, and an insertion changes no other field.
pub proof fn law_insert_get(r: Row, name: Seq<char>, typ: Ty, other: Seq<char>)
    requires
        r.names.len() == r.types.len(),
    ensures
        r.insert(name, typ).get(other) == if other == name {
            Some(typ)
        } else {
            r.get(other)
        },
        r.insert(name, typ).names.len() == r.insert(name, typ).types.len(),
        r.insert(name, typ).names.len() == r.names.len() + if r.get(name) is Some {
            0int
        } else {
            1int
        },
{
    let q = r.insert(name, typ);
    lemma_find_name(r.names, name);
    lemma_find_name(r.names, other);
    lemma_find_name(q.names, other);
    if find_name(r.names, name) is None {
        let at = place_of(r.names, name);
        lemma_place_of(r.names, name);
        assert(forall|j: int| 0 <= j < at ==> #[trigger] q.names[j] == r.names[j]);
        assert(q.names[at] == name);
        assert forall|j: int| at < j < q.names.len() implies #[trigger] q.names[j] == r.names[j
            - 1] by {}
        if other == name {
            lemma_find_name_is(q.names, name, at);
        } else if let Some(i) = find_name(r.names, other) {
            let k = if i < at {
                i
            } else {
                i + 1
            };
            assert(q.names[k] == other);
            assert forall|j: int| 0 <= j < k implies q.names[j] != other by {
                if j < at {
                    assert(q.names[j] == r.names[j]);
                } else if j > at {
                    assert(q.names[j] == r.names[j - 1]);
                }
            }
            lemma_find_name_is(q.names, other, k);
        } else {
            if let Some(i) = find_name(q.names, other) {
                if i < at {
                    assert(q.names[i] == r.names[i]);
                } else if i > at {
                    assert(q.names[i] == r.names[i - 1]);
                }
            }
        }
    }
}

/// An insertion keeps the row ordered.
pub proof fn law_insert_sorted(r: Row, name: Seq<char>, typ: Ty)
    requires
        r.sorted(),
    ensures
        r.insert(name, typ).sorted(),
{
    let q = r.insert(name, typ);
    lemma_find_name(r.names, name);
    if find_name(r.names, name) is None {
        let at = place_of(r.names, name);
        lemma_place_of(r.names, name);
        assert forall|j: int| at <= j < r.names.len() implies name_less(
            name,
            #[trigger] r.names[j],
        ) by {
            law_name_less_total(r.names[at], name);
            if j > at {
                assert(name_less(r.names[at], r.names[j]));
                law_name_less_transitive(name, r.names[at], r.names[j]);
            }
        }
        assert forall|i: int, j: int| 0 <= i < j < q.names.len() implies #[trigger] name_less(
            q.names[i],
            q.names[j],
        ) by {
            let a = if i < at {
                i
            } else {
                i - 1
            };
            let b = if j < at {
                j
            } else {
                j - 1
            };
            if i != at {
                assert(q.names[i] == r.names[a]);
            }
            if j != at {
                assert(q.names[j] == r.names[b]);
            }
            if i != at && j != at {
                assert(name_less(r.names[a], r.names[b]));
            }
        }
    }
}

/// In an ordered row each name has one position.
pub proof fn lemma_sorted_get(r: Row, i: int)
    requires
        r.sorted(),
        0 <= i < r.names.len(),
    ensures
        r.get(r.names[i]) == Some(r.types[i]),
{
    assert forall|j: int| 0 <= j < i implies r.names[j] != r.names[i] by {
        assert(name_less(r.names[j], r.names[i]));
        law_name_not_less_itself(r.names[i]);
    }
    lemma_find_name_is(r.names, r.names[i], i);
}

/// The position in `r` of the name at position `i` of `q` is at least `i`.
proof fn lemma_position_at_least(q: Row, r: Row, i: int)
    requires
        q.sorted(),
        r.sorted(),
        forall|j: int| 0 <= j < q.names.len() ==> r.get(#[trigger] q.names[j]) is Some,
        0 <= i < q.names.len(),
    ensures
        find_name(r.names, q.names[i]) matches Some(k) && i <= k < r.names.len() && r.names[k]
            == q.names[i],
    decreases i,
{
    assert(r.get(q.names[i]) is Some);
    lemma_find_name(r.names, q.names[i]);
    if i > 0 {
        lemma_position_at_least(q, r, i - 1);
        lemma_position_increases(q, r, i);
    }
}

/// Later names stand later.
proof fn lemma_position_increases(q: Row, r: Row, i: int)
    requires
        q.sorted(),
        r.sorted(),
        forall|j: int| 0 <= j < q.names.len() ==> r.get(#[trigger] q.names[j]) is Some,
        0 < i < q.names.len(),
    ensures
        find_name(r.names, q.names[i - 1])->0 < find_name(r.names, q.names[i])->0,
{
    assert(r.get(q.names[i]) is Some);
    assert(r.get(q.names[i - 1]) is Some);
    lemma_find_name(r.names, q.names[i]);
    lemma_find_name(r.names, q.names[i - 1]);
    let a = find_name(r.names, q.names[i - 1])->0;
    let b = find_name(r.names, q.names[i])->0;
    assert(name_less(q.names[i - 1], q.names[i]));
    law_name_not_less_itself(q.names[i]);
    if b < a {
        assert(name_less(r.names[b], r.names[a]));
        law_name_less_transitive(q.names[i - 1], q.names[i], q.names[i - 1]);
        law_name_not_less_itself(q.names[i - 1]);
    }
}

proof fn lemma_position_at_most(q: Row, r: Row, i: int)
    requires
        q.sorted(),
        r.sorted(),
        q.names.len() == r.names.len(),
        forall|j: int| 0 <= j < q.names.len() ==> r.get(#[trigger] q.names[j]) is Some,
        0 <= i < q.names.len(),
    ensures
        find_name(r.names, q.names[i]) matches Some(k) && k <= i,
    decreases q.names.len() - i,
{
    lemma_position_at_least(q, r, i);
    if i < q.names.len() - 1 {
        lemma_position_at_most(q, r, i + 1);
        lemma_position_increases(q, r, i + 1);
    }
}

/// An ordered row that has all the names of another one, and no more of them, has them in the
/// same places.
pub proof fn law_same_names(q: Row, r: Row)
    requires
        q.sorted(),
        r.sorted(),
        q.names.len() == r.names.len(),
        forall|j: int| 0 <= j < q.names.len() ==> r.get(#[trigger] q.names[j]) is Some,
    ensures
        q.names == r.names,
{
    assert forall|i: int| 0 <= i < q.names.len() implies q.names[i] == r.names[i] by {
        lemma_position_at_least(q, r, i);
        lemma_position_at_most(q, r, i);
    }
    assert(q.names =~= r.names);
}

} // verus!
