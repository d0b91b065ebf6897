//! The sort engine's mathematical story.
//!
//! The display snapshot is the stable sort of the row store by the sort
//! column's keys in the chosen direction. Stability plus distinct row
//! identities pin the result down completely: this module states that
//! characterization, hands the actual comparison work to a parallel sort,
//! and proves that the characterization has exactly one solution — which is
//! what makes re-sorting idempotent and direction toggles reversible.

use vstd::prelude::*;
use vstd::seq_lib::group_to_multiset_ensures;

use crate::{distinct_ids, views_of, RowView, SelectableRow, SortOrder};
use rayon::slice::ParallelSliceMut;

verus! {

broadcast use group_to_multiset_ensures;

/// The sort key of row `r` in column `col`.
pub open spec fn key_at(r: RowView, col: int) -> int {
    r.cells[col].key
}

/// Key `a` comes no later than key `b` in the given direction.
pub open spec fn keys_le(a: int, b: int, order: SortOrder) -> bool {
    match order {
        SortOrder::Ascending => a <= b,
        SortOrder::Descending => b <= a,
    }
}

/// The rows of `s` are ordered by the keys of column `col` in direction
/// `order`.
pub open spec fn rows_ordered(s: Seq<RowView>, col: int, order: SortOrder) -> bool {
    forall|i: int, j: int|
        0 <= i < j < s.len() ==> keys_le(key_at(s[i], col), key_at(s[j], col), order)
}

/// The position in `s` of the row with identity `id` (meaningful when the
/// identities of `s` are distinct and `id` occurs).
pub open spec fn pos_of_id(s: Seq<RowView>, id: int) -> int {
    choose|k: int| 0 <= k < s.len() && s[k].id == id
}

/// `b` is the stable sort of `a` by the keys of column `col` in direction
/// `order`: the same rows, ordered by key, and rows with equal keys still in
/// their original relative order.
pub open spec fn stable_sort_of(a: Seq<RowView>, b: Seq<RowView>, col: int, order: SortOrder) -> bool {
    &&& b.to_multiset() == a.to_multiset()
    &&& rows_ordered(b, col, order)
    &&& forall|i: int, j: int|
        0 <= i < j < b.len() && key_at(b[i], col) == key_at(b[j], col) ==> pos_of_id(a, b[i].id)
            < pos_of_id(a, b[j].id)
}

/// Compare two rows by the sort column's key, honouring the direction.
/// Rows whose keys are equal compare equal whatever the direction.
pub fn cmp_rows(a: &SelectableRow, b: &SelectableRow, col: usize, order: SortOrder) -> (r:
    core::cmp::Ordering)
    requires
        (col as int) < a@.cells.len(),
        (col as int) < b@.cells.len(),
    ensures
        r == core::cmp::Ordering::Equal <==> key_at(a@, col as int) == key_at(b@, col as int),
        r == core::cmp::Ordering::Less <==> (key_at(a@, col as int) != key_at(b@, col as int)
            && keys_le(key_at(a@, col as int), key_at(b@, col as int), order)),
{
    let ka = a.row_data[col].sort_key;
    let kb = b.row_data[col].sort_key;
    if ka == kb {
        core::cmp::Ordering::Equal
    } else {
        let ascending_less = ka < kb;
        let less = match order {
            SortOrder::Ascending => ascending_less,
            SortOrder::Descending => !ascending_less,
        };
        if less {
            core::cmp::Ordering::Less
        } else {
            core::cmp::Ordering::Greater
        }
    }
}

/// Relies on rayon's `ParallelSliceMut::par_sort_by`: a stable parallel
/// merge sort driven by the given comparator — the slice afterwards holds
/// the same rows, ordered by the comparator, and rows that compare equal
/// keep their relative order. The comparator handed over is [`cmp_rows`],
/// so with distinct row identities the outcome is exactly `stable_sort_of`.
#[verifier::external_body]
pub(crate) fn par_sort_rows(rows: &mut Vec<SelectableRow>, col: usize, order: SortOrder)
    requires
        forall|i: int|
            0 <= i < old(rows)@.len() ==> (col as int) < #[trigger] old(rows)@[i]@.cells.len(),
        distinct_ids(views_of(old(rows)@)),
    ensures
        stable_sort_of(views_of(old(rows)@), views_of(final(rows)@), col as int, order),
{
    rows.as_mut_slice().par_sort_by(|a, b| cmp_rows(a, b, col, order));
}

/// Two sequences that are strictly increasing with respect to an asymmetric
/// comparison and hold the same multiset of elements are the same sequence.
proof fn lemma_strictly_increasing_unique<A>(b1: Seq<A>, b2: Seq<A>, lt: spec_fn(A, A) -> bool)
    requires
        b1.to_multiset() == b2.to_multiset(),
        forall|i: int, j: int| 0 <= i < j < b1.len() ==> lt(b1[i], b1[j]),
        forall|i: int, j: int| 0 <= i < j < b2.len() ==> lt(b2[i], b2[j]),
        forall|x: A, y: A| #[trigger] lt(x, y) ==> !lt(y, x),
    ensures
        b1 =~= b2,
    decreases b1.len(),
{
    if b1.len() == 0 {
        assert(b1.to_multiset().len() == 0);
        assert(b2.len() == 0);
    } else {
        assert(b2.to_multiset().len() == b1.len());
        assert(b2.len() == b1.len());
        // The heads are equal: each head occurs in the other sequence, and
        // anywhere past position zero it would contradict asymmetry.
        assert(b1.contains(b1[0]));
        assert(b1.to_multiset().contains(b1[0]));
        assert(b2.contains(b1[0]));
        let j = choose|j: int| 0 <= j < b2.len() && b2[j] == b1[0];
        assert(b2.contains(b2[0]));
        assert(b2.to_multiset().contains(b2[0]));
        assert(b1.contains(b2[0]));
        let k = choose|k: int| 0 <= k < b1.len() && b1[k] == b2[0];
        if j > 0 && k > 0 {
            assert(lt(b2[0], b2[j]));
            assert(lt(b1[0], b1[k]));
            assert(false);
        }
        assert(b1[0] == b2[0]);
        let t1 = b1.drop_first();
        let t2 = b2.drop_first();
        assert(b1.remove(0) =~= t1);
        assert(b2.remove(0) =~= t2);
        assert(t1.to_multiset() =~= b1.to_multiset().remove(b1[0]));
        assert(t2.to_multiset() =~= b2.to_multiset().remove(b2[0]));
        assert(t1.to_multiset() == t2.to_multiset());
        assert forall|i: int, j2: int| 0 <= i < j2 < t1.len() implies lt(t1[i], t1[j2]) by {
            assert(t1[i] == b1[i + 1]);
            assert(t1[j2] == b1[j2 + 1]);
        }
        assert forall|i: int, j2: int| 0 <= i < j2 < t2.len() implies lt(t2[i], t2[j2]) by {
            assert(t2[i] == b2[i + 1]);
            assert(t2[j2] == b2[j2 + 1]);
        }
        lemma_strictly_increasing_unique(t1, t2, lt);
        assert forall|i: int| 0 <= i < b1.len() implies b1[i] == b2[i] by {
            if i > 0 {
                assert(t1[i - 1] == t2[i - 1]);
            }
        }
    }
}

/// In a sequence with distinct identities, `pos_of_id` of a row's identity
/// is that row's position.
pub proof fn lemma_pos_of_id(s: Seq<RowView>, i: int)
    requires
        distinct_ids(s),
        0 <= i < s.len(),
    ensures
        pos_of_id(s, s[i].id) == i,
{
    assert(0 <= i < s.len() && s[i].id == s[i].id);
    let k = pos_of_id(s, s[i].id);
    assert(0 <= k < s.len() && s[k].id == s[i].id);
}

/// A stable sort of rows with distinct identities holds the same rows, as
/// many as before, again with distinct identities; every row of the result
/// is a row of the input and the other way round.
pub proof fn lemma_stable_sort_rows(a: Seq<RowView>, b: Seq<RowView>, col: int, order: SortOrder)
    requires
        distinct_ids(a),
        stable_sort_of(a, b, col, order),
    ensures
        b.len() == a.len(),
        distinct_ids(b),
        forall|i: int| 0 <= i < b.len() ==> a.contains(#[trigger] b[i]),
        forall|i: int| 0 <= i < a.len() ==> b.contains(#[trigger] a[i]),
{
    assert(b.to_multiset().len() == a.to_multiset().len());
    assert forall|i: int| 0 <= i < b.len() implies a.contains(#[trigger] b[i]) by {
        assert(b.contains(b[i]));
        assert(b.to_multiset().contains(b[i]));
    }
    assert forall|i: int| 0 <= i < a.len() implies b.contains(#[trigger] a[i]) by {
        assert(a.contains(a[i]));
        assert(a.to_multiset().contains(a[i]));
    }
    assert forall|i: int, j: int| 0 <= i < j < b.len() implies b[i].id != b[j].id by {
        if b[i].id == b[j].id {
            let p = choose|p: int| 0 <= p < a.len() && a[p] == b[i];
            let q = choose|q: int| 0 <= q < a.len() && a[q] == b[j];
            if p == q {
                // Equal row values at two positions of `b`: the value would
                // be counted twice, yet in `a` distinct identities make all
                // row values distinct, so each is counted once.
                assert(b[i] == b[j]);
                let s0 = b.subrange(0, j);
                let s1 = b.subrange(j, b.len() as int);
                assert(b =~= s0 + s1);
                crate::sorting::lemma_multiset_commutative_rows(s0, s1);
                assert(s0.to_multiset().contains(b[i]));
                assert(s1.to_multiset().contains(b[j]));
                assert(b.to_multiset().count(b[i]) >= 2);
                assert forall|x: int, y: int| 0 <= x < y < a.len() implies a[x] != a[y] by {
                    assert(a[x].id != a[y].id);
                }
                a.lemma_multiset_has_no_duplicates();
                assert(a.to_multiset().contains(b[i]));
                assert(false);
            } else {
                assert(a[p].id != a[q].id);
                assert(false);
            }
        }
    }
}

/// The multiset of a concatenation is the sum of the multisets.
proof fn lemma_multiset_commutative_rows(s0: Seq<RowView>, s1: Seq<RowView>)
    ensures
        (s0 + s1).to_multiset() == s0.to_multiset().add(s1.to_multiset()),
{
    vstd::seq_lib::lemma_multiset_commutative(s0, s1);
    assert((s0 + s1).to_multiset() =~= s0.to_multiset().add(s1.to_multiset()));
}

/// The stable sort of a row sequence with distinct identities is unique:
/// sorting is a function of the store and the sort spec, so rebuilding the
/// snapshot twice from the same store yields the identical order.
pub proof fn lemma_stable_sort_unique(
    a: Seq<RowView>,
    b1: Seq<RowView>,
    b2: Seq<RowView>,
    col: int,
    order: SortOrder,
)
    requires
        distinct_ids(a),
        stable_sort_of(a, b1, col, order),
        stable_sort_of(a, b2, col, order),
    ensures
        b1 == b2,
{
    let lt = |x: RowView, y: RowView|
        (key_at(x, col) != key_at(y, col) && keys_le(key_at(x, col), key_at(y, col), order)) || (
        key_at(x, col) == key_at(y, col) && pos_of_id(a, x.id) < pos_of_id(a, y.id));
    lemma_stable_sort_rows(a, b1, col, order);
    lemma_stable_sort_rows(a, b2, col, order);
    assert forall|i: int, j: int| 0 <= i < j < b1.len() implies lt(b1[i], b1[j]) by {
        assert(keys_le(key_at(b1[i], col), key_at(b1[j], col), order));
    }
    assert forall|i: int, j: int| 0 <= i < j < b2.len() implies lt(b2[i], b2[j]) by {
        assert(keys_le(key_at(b2[i], col), key_at(b2[j], col), order));
    }
    assert forall|x: RowView, y: RowView| #[trigger] lt(x, y) implies !lt(y, x) by {}
    lemma_strictly_increasing_unique(b1, b2, lt);
}

/// Sorting is idempotent: a snapshot that is already sorted is its own
/// stable sort, so sorting it again — by the same column and direction —
/// leaves it exactly as it is.
pub proof fn lemma_sort_idempotent(b: Seq<RowView>, b2: Seq<RowView>, col: int, order: SortOrder)
    requires
        distinct_ids(b),
        rows_ordered(b, col, order),
        stable_sort_of(b, b2, col, order),
    ensures
        b2 == b,
{
    assert forall|i: int, j: int|
        0 <= i < j < b.len() && key_at(b[i], col) == key_at(b[j], col) implies pos_of_id(b, b[i].id)
        < pos_of_id(b, b[j].id) by {
        lemma_pos_of_id(b, i);
        lemma_pos_of_id(b, j);
    }
    assert(stable_sort_of(b, b, col, order));
    lemma_stable_sort_unique(b, b2, b, col, order);
}

/// Toggling the sort direction twice restores the original order: a double
/// flip is the identity on the sort spec, so a snapshot rebuilt after two
/// toggles equals the snapshot rebuilt before them.
pub proof fn lemma_toggle_sort_order_twice(
    a: Seq<RowView>,
    before: Seq<RowView>,
    after: Seq<RowView>,
    col: int,
    order: SortOrder,
)
    requires
        distinct_ids(a),
        stable_sort_of(a, before, col, order),
        stable_sort_of(a, after, col, order.spec_flip().spec_flip()),
    ensures
        after == before,
{
    assert(order.spec_flip().spec_flip() == order);
    lemma_stable_sort_unique(a, before, after, col, order);
}

} // verus!
