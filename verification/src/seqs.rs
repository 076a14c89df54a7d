//! Facts about sequences that the store's loops rely on.

use vstd::prelude::*;

verus! {

/// Filtering one more element either appends it or changes nothing.
pub proof fn lemma_filter_step<A>(s: Seq<A>, pred: spec_fn(A) -> bool, i: int)
    requires
        0 <= i < s.len(),
    ensures
        s.take(i + 1).filter(pred) == if pred(s[i]) {
            s.take(i).filter(pred).push(s[i])
        } else {
            s.take(i).filter(pred)
        },
{
    reveal(Seq::filter);
    assert(s.take(i + 1).drop_last() =~= s.take(i));
}

/// Filtering nothing gives nothing.
pub proof fn lemma_filter_empty<A>(s: Seq<A>, pred: spec_fn(A) -> bool)
    requires
        s.len() == 0,
    ensures
        s.filter(pred) == s,
{
    reveal(Seq::filter);
}

/// The smaller of two integers.
pub open spec fn least(x: int, y: int) -> int {
    if x <= y {
        x
    } else {
        y
    }
}

/// Page `index` of `s` cut into pages of `size` elements: the elements from offset
/// `index * size` on, `size` of them or as many as are left. A page beyond the data is empty.
pub open spec fn page<A>(s: Seq<A>, size: nat, index: nat) -> Seq<A> {
    s.subrange(
        least((index * size) as int, s.len() as int),
        least((index * size + size) as int, s.len() as int),
    )
}

/// A page that starts at or beyond the end of the data is empty.
pub proof fn lemma_page_beyond_is_empty<A>(s: Seq<A>, size: nat, index: nat)
    requires
        index * size >= s.len(),
    ensures
        page(s, size, index).len() == 0,
{
}

/// Two neighbouring pages, read one after the other, are one page of twice the size.
pub proof fn lemma_pages_join<A>(s: Seq<A>, size: nat, index: nat)
    ensures
        page(s, size, 2 * index) + page(s, size, 2 * index + 1) == page(s, 2 * size, index),
{
    let n = s.len() as int;
    assert((2 * index) * size == index * (2 * size)) by (nonlinear_arith);
    assert((2 * index + 1) * size == index * (2 * size) + size) by (nonlinear_arith);
    assert(index * (2 * size) >= 0) by (nonlinear_arith);
    assert(page(s, size, 2 * index) + page(s, size, 2 * index + 1) =~= page(s, 2 * size, index));
}

/// The elements of a sequence of indices, as integers.
pub open spec fn as_ints(s: Seq<usize>) -> Seq<int> {
    Seq::new(s.len(), |k: int| s[k] as int)
}

} // verus!
