//! Which effects a row holds once it was joined with another, or some of its effects were handled.

use crate::cache::Cache;
use crate::effect_sets::{add_handled, combined, flat, missing_from, without_handled, EffectRow};
use crate::types::Ty;
use vstd::prelude::*;

verus! {

/// The effects that are missing from others are those effects that the others do not have.
pub proof fn law_missing_from(effects: Seq<Ty>, others: Seq<Ty>, e: Ty)
    ensures
        missing_from(effects, others).contains(e) <==> effects.contains(e) && !others.contains(e),
    decreases effects.len(),
{
    if effects.len() > 0 {
        let front = effects.drop_last();
        law_missing_from(front, others, e);
        lemma_push_contains(front, effects.last(), e);
        lemma_push_contains(missing_from(front, others), effects.last(), e);
        assert(front.push(effects.last()) =~= effects);
    }
}

proof fn lemma_push_contains(s: Seq<Ty>, x: Ty, e: Ty)
    ensures
        s.push(x).contains(e) <==> s.contains(e) || x == e,
{
    if s.contains(e) {
        let i = choose|i: int| 0 <= i < s.len() && s[i] == e;
        assert(s.push(x)[i] == e);
    }
    if x == e {
        assert(s.push(x)[s.len() as int] == e);
    }
}

/// Two rows joined hold exactly the effects of both.
pub proof fn law_combined_holds_both(a: EffectRow, b: EffectRow, c: Cache, e: Ty)
    requires
        combined(a, b, c) is Some,
    ensures
        flat(a, c) is Some,
        flat(b, c) is Some,
        (combined(a, b, c)->0).0.0.contains(e) <==> (flat(a, c)->0).0.contains(e) || (flat(
            b,
            c,
        )->0).0.contains(e),
{
    let xs = (flat(a, c)->0).0;
    let ys = (flat(b, c)->0).0;
    let only = missing_from(ys, xs);
    law_missing_from(ys, xs, e);
    if xs.contains(e) {
        let i = choose|i: int| 0 <= i < xs.len() && xs[i] == e;
        assert((xs + only)[i] == e);
    }
    if only.contains(e) {
        let i = choose|i: int| 0 <= i < only.len() && only[i] == e;
        assert((xs + only)[xs.len() + i] == e);
    }
}

/// Handling takes exactly the given effects away. What was taken away is handled now, and so is
/// what was handled before.
pub proof fn law_handled_are_gone(
    row: EffectRow,
    effects: EffectRow,
    handled: Seq<Ty>,
    c: Cache,
    e: Ty,
)
    requires
        without_handled(row, effects, handled, c) is Some,
    ensures
        ({
            let xs = (flat(row, c)->0).0;
            let ys = (flat(effects, c)->0).0;
            let (rest, all) = without_handled(row, effects, handled, c)->0;
            &&& rest.0.contains(e) <==> xs.contains(e) && !ys.contains(e)
            &&& all.contains(e) <==> handled.contains(e) || (xs.contains(e) && ys.contains(e))
            &&& rest.1 == (flat(row, c)->0).1
        }),
{
    let xs = (flat(row, c)->0).0;
    let ys = (flat(effects, c)->0).0;
    law_missing_from(xs, ys, e);
    lemma_add_handled(ys, xs, handled, e);
}

proof fn lemma_add_handled(effects: Seq<Ty>, present: Seq<Ty>, handled: Seq<Ty>, e: Ty)
    ensures
        add_handled(effects, present, handled).contains(e) <==> handled.contains(e) || (
        effects.contains(e) && present.contains(e)),
    decreases effects.len(),
{
    if effects.len() > 0 {
        let front = effects.drop_last();
        lemma_add_handled(front, present, handled, e);
        lemma_push_contains(front, effects.last(), e);
        lemma_push_contains(add_handled(front, present, handled), effects.last(), e);
        assert(front.push(effects.last()) =~= effects);
    }
}

} // verus!
