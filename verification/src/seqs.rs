//! Facts about filtered sequences.

use vstd::prelude::*;

verus! {

/// Filtering one element more either appends that element or changes nothing.
pub proof fn lemma_filter_step<A>(s: Seq<A>, pred: spec_fn(A) -> bool, i: int)
    requires
        0 <= i < s.len(),
    ensures
        s.take(i + 1).filter(pred) == if pred(s[i]) {
            s.take(i).filter(pred).push(s[i])
        } else {
            s.take(i).filter(pred)
        },
{
    reveal(Seq::filter);
    assert(s.take(i + 1).drop_last() =~= s.take(i));
    assert(s.take(i + 1).last() == s[i]);
}

/// What passes the filter among the first `i` elements stands at the front
/// of what passes it in the whole.
pub proof fn lemma_filter_prefix<A>(s: Seq<A>, pred: spec_fn(A) -> bool, i: int)
    requires
        0 <= i <= s.len(),
    ensures
        s.take(i).filter(pred).len() <= s.filter(pred).len(),
        forall|j: int|
            0 <= j < s.take(i).filter(pred).len() ==> #[trigger] s.filter(pred)[j] == s.take(
                i,
            ).filter(pred)[j],
    decreases s.len() - i,
{
    if i == s.len() {
        assert(s.take(i) =~= s);
    } else {
        lemma_filter_step(s, pred, i);
        lemma_filter_prefix(s, pred, i + 1);
    }
}

/// What passes the filter keeps its order: two places in the filtered
/// sequence come from two places of the whole in the same order.
pub proof fn lemma_filter_order<A>(s: Seq<A>, pred: spec_fn(A) -> bool, i: int, j: int) -> (r: (
    int,
    int,
))
    requires
        0 <= i < j < s.filter(pred).len(),
    ensures
        0 <= r.0 < r.1 < s.len(),
        s[r.0] == s.filter(pred)[i],
        s[r.1] == s.filter(pred)[j],
    decreases s.len(),
{
    reveal(Seq::filter);
    let f = s.filter(pred);
    let front = s.drop_last();
    let ff = front.filter(pred);
    if j < ff.len() {
        let r = lemma_filter_order(front, pred, i, j);
        r
    } else {
        assert(pred(s.last()) && f == ff.push(s.last()));
        let a = lemma_filter_place(front, pred, i);
        (a, s.len() - 1)
    }
}

/// A place in the filtered sequence comes from a place of the whole.
pub proof fn lemma_filter_place<A>(s: Seq<A>, pred: spec_fn(A) -> bool, i: int) -> (a: int)
    requires
        0 <= i < s.filter(pred).len(),
    ensures
        0 <= a < s.len(),
        s[a] == s.filter(pred)[i],
    decreases s.len(),
{
    reveal(Seq::filter);
    let front = s.drop_last();
    let ff = front.filter(pred);
    if i < ff.len() {
        lemma_filter_place(front, pred, i)
    } else {
        s.len() - 1
    }
}

} // verus!
