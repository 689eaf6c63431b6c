//! The order of texts, and sorting by it.

use vstd::prelude::*;
use vstd::relations::{sorted_by, total_ordering};
use vstd::seq_lib::{group_to_multiset_ensures, lemma_sorted_unique};
use crate::utils::text::{chars_of, lemma_same_head_and_tail, texts};

verus! {

/// Whether `a` comes before `b`, or equals it, in the order of a dictionary:
/// the first character in which they differ decides, by its code; where one
/// is the beginning of the other, the shorter one comes first.
pub open spec fn text_le(a: Seq<char>, b: Seq<char>) -> bool
    decreases a.len(),
{
    if a.len() == 0 {
        true
    } else if b.len() == 0 {
        false
    } else if a[0] != b[0] {
        a[0] < b[0]
    } else {
        text_le(a.drop_first(), b.drop_first())
    }
}

/// The order of texts as a relation.
pub open spec fn text_order() -> spec_fn(Seq<char>, Seq<char>) -> bool {
    |a: Seq<char>, b: Seq<char>| text_le(a, b)
}

/// Every text comes before itself or equals it.
pub proof fn lemma_le_reflexive(a: Seq<char>)
    ensures
        text_le(a, a),
    decreases a.len(),
{
    if a.len() > 0 {
        lemma_le_reflexive(a.drop_first());
    }
}

/// Two texts of which each comes before the other are the same text.
pub proof fn lemma_le_antisymmetric(a: Seq<char>, b: Seq<char>)
    requires
        text_le(a, b),
        text_le(b, a),
    ensures
        a == b,
    decreases a.len(),
{
    if a.len() == 0 || b.len() == 0 {
        assert(a =~= b);
    } else {
        lemma_le_antisymmetric(a.drop_first(), b.drop_first());
        lemma_same_head_and_tail(a, b);
    }
}

/// What comes before a text comes before what that text comes before.
pub proof fn lemma_le_transitive(a: Seq<char>, b: Seq<char>, c: Seq<char>)
    requires
        text_le(a, b),
        text_le(b, c),
    ensures
        text_le(a, c),
    decreases a.len(),
{
    if a.len() > 0 && b.len() > 0 && c.len() > 0 {
        if a[0] == b[0] && b[0] == c[0] {
            lemma_le_transitive(a.drop_first(), b.drop_first(), c.drop_first());
        }
    }
}

/// Of two texts one comes before the other.
pub proof fn lemma_le_total(a: Seq<char>, b: Seq<char>)
    ensures
        text_le(a, b) || text_le(b, a),
    decreases a.len(),
{
    if a.len() > 0 && b.len() > 0 && a[0] == b[0] {
        lemma_le_total(a.drop_first(), b.drop_first());
    }
}

/// The order of texts is a total order.
pub proof fn lemma_text_order_total()
    ensures
        total_ordering(text_order()),
{
    let r = text_order();
    assert forall|x: Seq<char>| #[trigger] r(x, x) by {
        lemma_le_reflexive(x);
    }
    assert forall|x: Seq<char>, y: Seq<char>| #[trigger] r(x, y) && #[trigger] r(y, x) implies x
        == y by {
        lemma_le_antisymmetric(x, y);
    }
    assert forall|x: Seq<char>, y: Seq<char>, z: Seq<char>| #[trigger]
        r(x, y) && #[trigger] r(y, z) implies r(x, z) by {
        lemma_le_transitive(x, y, z);
    }
    assert forall|x: Seq<char>, y: Seq<char>| #[trigger] r(x, y) || #[trigger] r(y, x) by {
        lemma_le_total(x, y);
    }
}

/// Whether `a` comes before `b`, or equals it.
pub fn text_le_exec(a: &str, b: &str) -> (r: bool)
    ensures
        r == text_le(a@, b@),
{
    let x = chars_of(a);
    let y = chars_of(b);
    let mut i: usize = 0;
    assert(a@.skip(0) =~= a@);
    assert(b@.skip(0) =~= b@);
    while i < x.len() && i < y.len()
        invariant
            x@ == a@,
            y@ == b@,
            i <= x@.len(),
            i <= y@.len(),
            text_le(a@, b@) == text_le(a@.skip(i as int), b@.skip(i as int)),
        decreases x@.len() - i,
    {
        assert(a@.skip(i as int)[0] == x@[i as int]);
        assert(b@.skip(i as int)[0] == y@[i as int]);
        if x[i] != y[i] {
            return x[i] < y[i];
        }
        assert(a@.skip(i as int).drop_first() =~= a@.skip(i + 1));
        assert(b@.skip(i as int).drop_first() =~= b@.skip(i + 1));
        i += 1;
    }
    i == x.len()
}

/// The texts of `v` in ascending order.
pub fn sort_texts(v: Vec<String>) -> (r: Vec<String>)
    ensures
        texts(r@) == texts(v@).sort_by(text_order()),
{
    broadcast use group_to_multiset_ensures;
    broadcast use vstd::multiset::group_multiset_axioms;

    let ghost start = texts(v@);
    let mut rest = v;
    let mut out: Vec<String> = Vec::new();
    proof {
        lemma_text_order_total();
        assert(texts(out@) =~= Seq::empty());
        assert(texts(out@).to_multiset().add(texts(rest@).to_multiset()) =~= start.to_multiset());
    }
    while rest.len() > 0
        invariant
            total_ordering(text_order()),
            sorted_by(texts(out@), text_order()),
            forall|i: int, j: int|
                0 <= i < out@.len() && 0 <= j < rest@.len() ==> text_le(
                    (#[trigger] out@[i])@,
                    (#[trigger] rest@[j])@,
                ),
            texts(out@).to_multiset().add(texts(rest@).to_multiset()) == start.to_multiset(),
        decreases rest@.len(),
    {
        let mut m: usize = 0;
        let mut k: usize = 1;
        proof {
            lemma_le_reflexive(rest@[0]@);
        }
        while k < rest.len()
            invariant
                m < k <= rest@.len(),
                forall|j: int| 0 <= j < k ==> text_le(rest@[m as int]@, (#[trigger] rest@[j])@),
            decreases rest@.len() - k,
        {
            if text_le_exec(rest[k].as_str(), rest[m].as_str()) {
                proof {
                    assert forall|j: int| 0 <= j < k + 1 implies text_le(
                        rest@[k as int]@,
                        (#[trigger] rest@[j])@,
                    ) by {
                        if j < k {
                            lemma_le_transitive(rest@[k as int]@, rest@[m as int]@, rest@[j]@);
                        } else {
                            lemma_le_reflexive(rest@[k as int]@);
                        }
                    }
                }
                m = k;
            } else {
                proof {
                    lemma_le_total(rest@[k as int]@, rest@[m as int]@);
                }
            }
            k += 1;
        }
        let ghost before_rest = rest@;
        let ghost before_out = out@;
        let x = rest.remove(m);
        out.push(x);
        proof {
            assert(texts(rest@) =~= texts(before_rest).remove(m as int));
            assert(texts(out@) =~= texts(before_out).push(x@));
            assert(texts(before_rest)[m as int] == x@);
            assert(texts(before_rest).contains(x@));
            vstd::seq_lib::to_multiset_contains(texts(before_rest), x@);
            vstd::seq_lib::to_multiset_build(texts(before_out), x@);
            vstd::seq_lib::to_multiset_remove(texts(before_rest), m as int);
            assert(texts(before_rest).to_multiset().count(x@) > 0);
            assert(texts(out@).to_multiset() =~= texts(before_out).to_multiset().insert(x@));
            assert(texts(rest@).to_multiset() =~= texts(before_rest).to_multiset().remove(x@));
            assert(texts(out@).to_multiset().add(texts(rest@).to_multiset())
                =~= start.to_multiset());
            assert forall|i: int, j: int| 0 <= i < j < out@.len() implies text_le(
                #[trigger] texts(out@)[i],
                #[trigger] texts(out@)[j],
            ) by {
                if j < before_out.len() {
                    assert(text_order()(texts(before_out)[i], texts(before_out)[j]));
                } else {
                    assert(out@[i] == before_out[i]);
                    assert(text_le(before_out[i]@, before_rest[m as int]@));
                }
            }
            assert(sorted_by(texts(out@), text_order()));
            assert forall|i: int, j: int|
                0 <= i < out@.len() && 0 <= j < rest@.len() implies text_le(
                (#[trigger] out@[i])@,
                (#[trigger] rest@[j])@,
            ) by {
                let j0 = if j < m { j } else { j + 1 };
                assert(rest@[j] == before_rest[j0]);
                if i < before_out.len() {
                    assert(out@[i] == before_out[i]);
                } else {
                }
            }
        }
    }
    proof {
        assert(texts(rest@) =~= Seq::empty());
        assert(texts(out@).to_multiset() =~= start.to_multiset());
        start.lemma_sort_by_ensures(text_order());
        lemma_sorted_unique(texts(out@), start.sort_by(text_order()), text_order());
    }
    out
}

} // verus!
