//! Sums of micro-hours over sequences of day entries.
//!
//! `psum` adds up the micro-hours of the entries a predicate selects.  The
//! lemmas here say how such a sum reacts to taking a prefix, updating,
//! inserting or removing one element; they carry the contracts of the
//! ledger's mutations and of every rolling-total query.

use vstd::prelude::*;

use crate::ledger::DayEntry;

verus! {

/// The predicate selecting every entry.
pub open spec fn p_true() -> spec_fn(DayEntry) -> bool {
    |e: DayEntry| true
}

/// Total micro-hours of the entries selected by `p`.
pub open spec fn psum(s: Seq<DayEntry>, p: spec_fn(DayEntry) -> bool) -> int
    decreases s.len(),
{
    if s.len() == 0 {
        0
    } else {
        psum(s.drop_last(), p) + if p(s.last()) {
            s.last().micro as int
        } else {
            0
        }
    }
}

/// A selected sum lies between zero and the sum over all entries.
pub proof fn lemma_psum_le_total(s: Seq<DayEntry>, p: spec_fn(DayEntry) -> bool)
    ensures
        0 <= psum(s, p) <= psum(s, p_true()),
    decreases s.len(),
{
    if s.len() > 0 {
        lemma_psum_le_total(s.drop_last(), p);
    }
}

/// Extending a prefix by one element adds that element's contribution.
pub proof fn lemma_psum_take_step(s: Seq<DayEntry>, p: spec_fn(DayEntry) -> bool, i: int)
    requires
        0 <= i < s.len(),
    ensures
        psum(s.take(i + 1), p) == psum(s.take(i), p) + if p(s[i]) {
            s[i].micro as int
        } else {
            0
        },
{
    assert(s.take(i + 1).drop_last() =~= s.take(i));
    assert(s.take(i + 1).last() == s[i]);
}

/// The whole sequence is its own full prefix.
pub proof fn lemma_psum_take_full(s: Seq<DayEntry>, p: spec_fn(DayEntry) -> bool)
    ensures
        psum(s.take(s.len() as int), p) == psum(s, p),
{
    assert(s.take(s.len() as int) =~= s);
}

/// Replacing one element exchanges its contribution for the new one.
pub proof fn lemma_psum_update(s: Seq<DayEntry>, p: spec_fn(DayEntry) -> bool, i: int, e: DayEntry)
    requires
        0 <= i < s.len(),
    ensures
        psum(s.update(i, e), p) == psum(s, p) - (if p(s[i]) {
            s[i].micro as int
        } else {
            0
        }) + (if p(e) {
            e.micro as int
        } else {
            0
        }),
    decreases s.len(),
{
    if i == s.len() - 1 {
        assert(s.update(i, e).drop_last() =~= s.drop_last());
        assert(s.update(i, e).last() == e);
    } else {
        assert(s.update(i, e).drop_last() =~= s.drop_last().update(i, e));
        assert(s.update(i, e).last() == s.last());
        lemma_psum_update(s.drop_last(), p, i, e);
    }
}

/// Inserting an element adds its contribution.
pub proof fn lemma_psum_insert(s: Seq<DayEntry>, p: spec_fn(DayEntry) -> bool, i: int, e: DayEntry)
    requires
        0 <= i <= s.len(),
    ensures
        psum(s.insert(i, e), p) == psum(s, p) + if p(e) {
            e.micro as int
        } else {
            0
        },
    decreases s.len(),
{
    if i == s.len() {
        assert(s.insert(i, e).drop_last() =~= s);
        assert(s.insert(i, e).last() == e);
    } else {
        assert(s.insert(i, e).drop_last() =~= s.drop_last().insert(i, e));
        assert(s.insert(i, e).last() == s.last());
        lemma_psum_insert(s.drop_last(), p, i, e);
    }
}

/// Removing an element takes its contribution away.
pub proof fn lemma_psum_remove(s: Seq<DayEntry>, p: spec_fn(DayEntry) -> bool, i: int)
    requires
        0 <= i < s.len(),
    ensures
        psum(s.remove(i), p) == psum(s, p) - if p(s[i]) {
            s[i].micro as int
        } else {
            0
        },
    decreases s.len(),
{
    if i == s.len() - 1 {
        assert(s.remove(i) =~= s.drop_last());
    } else {
        assert(s.remove(i).drop_last() =~= s.drop_last().remove(i));
        assert(s.remove(i).last() == s.last());
        lemma_psum_remove(s.drop_last(), p, i);
    }
}

/// A prefix's sum never exceeds the whole sequence's.
pub proof fn lemma_psum_take_le(s: Seq<DayEntry>, p: spec_fn(DayEntry) -> bool, i: int)
    requires
        0 <= i <= s.len(),
    ensures
        psum(s.take(i), p) <= psum(s, p),
    decreases s.len() - i,
{
    if i < s.len() {
        lemma_psum_take_step(s, p, i);
        lemma_psum_take_le(s, p, i + 1);
    } else {
        lemma_psum_take_full(s, p);
    }
}

/// A sequence's sum splits at any index into prefix and suffix sums.
pub proof fn lemma_psum_take_skip(s: Seq<DayEntry>, p: spec_fn(DayEntry) -> bool, i: int)
    requires
        0 <= i <= s.len(),
    ensures
        psum(s, p) == psum(s.take(i), p) + psum(s.skip(i), p),
    decreases s.len(),
{
    if i == s.len() {
        assert(s.take(i) =~= s);
        assert(s.skip(i) =~= Seq::<DayEntry>::empty());
    } else {
        assert(s.drop_last().take(i) =~= s.take(i));
        assert(s.skip(i).drop_last() =~= s.drop_last().skip(i));
        assert(s.skip(i).last() == s.last());
        lemma_psum_take_skip(s.drop_last(), p, i);
    }
}

/// A sum over a weaker predicate covers the sum over a stronger one.
pub proof fn lemma_psum_le_impl(
    s: Seq<DayEntry>,
    p: spec_fn(DayEntry) -> bool,
    q: spec_fn(DayEntry) -> bool,
)
    requires
        forall|e: DayEntry| #[trigger] p(e) ==> q(e),
    ensures
        psum(s, p) <= psum(s, q),
    decreases s.len(),
{
    if s.len() > 0 {
        lemma_psum_le_impl(s.drop_last(), p, q);
    }
}

/// A sum over a predicate nothing satisfies is zero.
pub proof fn lemma_psum_all_zero(s: Seq<DayEntry>, p: spec_fn(DayEntry) -> bool)
    requires
        forall|j: int| 0 <= j < s.len() ==> !p(#[trigger] s[j]),
    ensures
        psum(s, p) == 0,
    decreases s.len(),
{
    if s.len() > 0 {
        lemma_psum_all_zero(s.drop_last(), p);
    }
}

/// A sum over a predicate only one element satisfies is that element's value.
pub proof fn lemma_psum_unique(s: Seq<DayEntry>, p: spec_fn(DayEntry) -> bool, i: int)
    requires
        0 <= i < s.len(),
        p(s[i]),
        forall|j: int| 0 <= j < s.len() && j != i ==> !p(#[trigger] s[j]),
    ensures
        psum(s, p) == s[i].micro as int,
    decreases s.len(),
{
    if i == s.len() - 1 {
        lemma_psum_all_zero(s.drop_last(), p);
    } else {
        lemma_psum_unique(s.drop_last(), p, i);
        assert(!p(s.last()));
    }
}

/// Each selected element's value is at most the selected sum.
pub proof fn lemma_psum_elem_le(s: Seq<DayEntry>, p: spec_fn(DayEntry) -> bool, i: int)
    requires
        0 <= i < s.len(),
        p(s[i]),
    ensures
        s[i].micro as int <= psum(s, p),
    decreases s.len(),
{
    if i == s.len() - 1 {
        lemma_psum_le_total(s.drop_last(), p);
    } else {
        lemma_psum_elem_le(s.drop_last(), p, i);
    }
}

} // verus!
