//! The order of rows by chosen columns, and the best rows of a list in that order.

use crate::data::{
    compare_values, lemma_compare_values_reverse, lemma_compare_values_transitive, Comparison,
    DataType, Row,
};
use vstd::prelude::*;

verus! {

/// One column of an order, and the direction in which it orders.
#[derive(Clone, Copy, Debug, PartialEq, Eq, Structural)]
pub struct OrderBy {
    /// The column.
    pub column: usize,
    /// Whether greater values come first.
    pub descending: bool,
}

/// How two rows compare in the first column of an order.
pub open spec fn compare_column(by: OrderBy, a: Row, b: Row) -> Comparison {
    let c = compare_values(a[by.column as int], b[by.column as int]);
    if by.descending {
        c.spec_reverse()
    } else {
        c
    }
}

/// The order of rows: by the first column of `order`, rows that are equal there by the
/// second, and so on. `Less` means that the first row comes first.
pub open spec fn compare_rows(order: Seq<OrderBy>, a: Row, b: Row) -> Comparison
    decreases order.len(),
{
    if order.len() == 0 {
        Comparison::Equal
    } else if compare_column(order[0], a, b) != Comparison::Equal {
        compare_column(order[0], a, b)
    } else {
        compare_rows(order.skip(1), a, b)
    }
}

/// Comparing rows the other way round gives the reverse outcome.
pub proof fn lemma_compare_rows_reverse(order: Seq<OrderBy>, a: Row, b: Row)
    ensures
        compare_rows(order, b, a) == compare_rows(order, a, b).spec_reverse(),
    decreases order.len(),
{
    if order.len() > 0 {
        lemma_compare_values_reverse(a[order[0].column as int], b[order[0].column as int]);
        lemma_compare_rows_reverse(order.skip(1), a, b);
    }
}

/// The order of rows is transitive.
pub proof fn lemma_compare_rows_transitive(order: Seq<OrderBy>, a: Row, b: Row, c: Row)
    requires
        compare_rows(order, a, b) != Comparison::Greater,
        compare_rows(order, b, c) != Comparison::Greater,
    ensures
        compare_rows(order, a, c) != Comparison::Greater,
        compare_rows(order, a, b) == Comparison::Less || compare_rows(order, b, c)
            == Comparison::Less ==> compare_rows(order, a, c) == Comparison::Less,
    decreases order.len(),
{
    if order.len() > 0 {
        let col = order[0].column as int;
        lemma_compare_values_reverse(a[col], b[col]);
        lemma_compare_values_reverse(b[col], c[col]);
        lemma_compare_values_reverse(a[col], c[col]);
        if order[0].descending {
            lemma_compare_values_transitive(c[col], b[col], a[col]);
        } else {
            lemma_compare_values_transitive(a[col], b[col], c[col]);
        }
        if compare_column(order[0], a, b) == Comparison::Equal && compare_column(order[0], b, c)
            == Comparison::Equal {
            lemma_compare_rows_transitive(order.skip(1), a, b, c);
        }
    }
}

/// The rows come in the order `order`: none comes before one that precedes it in the list.
pub open spec fn sorted(order: Seq<OrderBy>, s: Seq<Row>) -> bool {
    forall|i: int, j: int|
        0 <= i < j < s.len() ==> compare_rows(order, #[trigger] s[i], #[trigger] s[j])
            != Comparison::Greater
}

/// The sorted list `s` with `x` put in its place: before the rows that it comes first of,
/// and after those that it equals.
pub open spec fn place(order: Seq<OrderBy>, s: Seq<Row>, x: Row) -> Seq<Row>
    decreases s.len(),
{
    if s.len() == 0 {
        seq![x]
    } else if compare_rows(order, x, s.last()) == Comparison::Less {
        place(order, s.drop_last(), x).push(s.last())
    } else {
        s.push(x)
    }
}

/// The first `k` rows of `s`, or all of `s` where it has fewer.
pub open spec fn first(s: Seq<Row>, k: nat) -> Seq<Row> {
    if s.len() > k {
        s.take(k as int)
    } else {
        s
    }
}

/// The `k` best rows of `rows` in the order `order`, best first; rows that the order does
/// not tell apart stay in the order in which `rows` has them.
pub open spec fn top_k(order: Seq<OrderBy>, k: nat, rows: Seq<Row>) -> Seq<Row>
    decreases rows.len(),
{
    if rows.len() == 0 {
        Seq::empty()
    } else {
        first(place(order, top_k(order, k, rows.drop_last()), rows.last()), k)
    }
}

/// Putting a row in its place is inserting it at the position before which no row comes
/// after it, and from which on it comes first of every row.
pub proof fn lemma_place_is_insert(order: Seq<OrderBy>, s: Seq<Row>, x: Row, p: int)
    requires
        0 <= p <= s.len(),
        forall|j: int| p <= j < s.len() ==> compare_rows(order, x, #[trigger] s[j])
            == Comparison::Less,
        p > 0 ==> compare_rows(order, x, s[p - 1]) != Comparison::Less,
    ensures
        place(order, s, x) == s.insert(p, x),
    decreases s.len(),
{
    if s.len() == 0 {
        assert(s.insert(0, x) =~= seq![x]);
    } else if p == s.len() {
        assert(s.insert(p, x) =~= s.push(x));
    } else {
        let t = s.drop_last();
        assert forall|j: int| p <= j < t.len() implies compare_rows(order, x, #[trigger] t[j])
            == Comparison::Less by {
            assert(t[j] == s[j]);
        }
        if p > 0 {
            assert(t[p - 1] == s[p - 1]);
        }
        lemma_place_is_insert(order, t, x, p);
        assert(t.insert(p, x).push(s.last()) =~= s.insert(p, x));
    }
}

/// The position at which `place` inserts.
pub open spec fn place_index(order: Seq<OrderBy>, s: Seq<Row>, x: Row) -> int
    decreases s.len(),
{
    if s.len() == 0 {
        0
    } else if compare_rows(order, x, s.last()) == Comparison::Less {
        place_index(order, s.drop_last(), x)
    } else {
        s.len() as int
    }
}

/// `place` inserts at `place_index`, which satisfies what `lemma_place_is_insert` asks.
pub proof fn lemma_place_index(order: Seq<OrderBy>, s: Seq<Row>, x: Row)
    ensures
        0 <= place_index(order, s, x) <= s.len(),
        forall|j: int|
            place_index(order, s, x) <= j < s.len() ==> compare_rows(order, x, #[trigger] s[j])
                == Comparison::Less,
        place_index(order, s, x) > 0 ==> compare_rows(
            order,
            x,
            s[place_index(order, s, x) - 1],
        ) != Comparison::Less,
        place(order, s, x) == s.insert(place_index(order, s, x), x),
    decreases s.len(),
{
    if s.len() > 0 && compare_rows(order, x, s.last()) == Comparison::Less {
        let t = s.drop_last();
        lemma_place_index(order, t, x);
        let p = place_index(order, t, x);
        assert forall|j: int| p <= j < s.len() implies compare_rows(order, x, #[trigger] s[j])
            == Comparison::Less by {
            if j < t.len() {
                assert(t[j] == s[j]);
            }
        }
        if p > 0 {
            assert(t[p - 1] == s[p - 1]);
        }
    }
    lemma_place_is_insert(order, s, x, place_index(order, s, x));
}

/// Putting a row in its place keeps a sorted list sorted.
pub proof fn lemma_place_sorted(order: Seq<OrderBy>, s: Seq<Row>, x: Row)
    requires
        sorted(order, s),
    ensures
        sorted(order, place(order, s, x)),
{
    lemma_place_index(order, s, x);
    let p = place_index(order, s, x);
    let t = s.insert(p, x);
    assert forall|i: int, j: int| 0 <= i < j < t.len() implies compare_rows(
        order,
        #[trigger] t[i],
        #[trigger] t[j],
    ) != Comparison::Greater by {
        if j == p {
            // t[i] is a row before the place of x
            assert(t[i] == s[i]);
            lemma_compare_rows_reverse(order, x, s[p - 1]);
            if i < p - 1 {
                assert(compare_rows(order, s[i], s[p - 1]) != Comparison::Greater);
                lemma_compare_rows_transitive(order, s[i], s[p - 1], x);
            }
        } else if i == p {
            assert(t[j] == s[j - 1]);
        } else {
            let i0 = if i < p {
                i
            } else {
                i - 1
            };
            let j0 = if j < p {
                j
            } else {
                j - 1
            };
            assert(t[i] == s[i0] && t[j] == s[j0]);
        }
    }
}

/// The best rows are sorted, and there are as many as asked for, or as `rows` has.
pub proof fn lemma_top_k_sorted(order: Seq<OrderBy>, k: nat, rows: Seq<Row>)
    ensures
        sorted(order, top_k(order, k, rows)),
        top_k(order, k, rows).len() == if rows.len() < k {
            rows.len()
        } else {
            k
        },
    decreases rows.len(),
{
    if rows.len() > 0 {
        let before = top_k(order, k, rows.drop_last());
        lemma_top_k_sorted(order, k, rows.drop_last());
        lemma_place_sorted(order, before, rows.last());
        lemma_place_index(order, before, rows.last());
        let placed = place(order, before, rows.last());
        let best = first(placed, k);
        assert forall|i: int, j: int| 0 <= i < j < best.len() implies compare_rows(
            order,
            #[trigger] best[i],
            #[trigger] best[j],
        ) != Comparison::Greater by {
            assert(best[i] == placed[i] && best[j] == placed[j]);
        }
    }
}

/// A row of the sorted list with `x` put in its place is among the first `k` of that list, or
/// is no better than the last of them.
proof fn lemma_placed_row(order: Seq<OrderBy>, k: nat, before: Seq<Row>, x: Row, at: int)
    requires
        sorted(order, before),
        0 <= at < place(order, before, x).len(),
    ensures
        first(place(order, before, x), k).contains(place(order, before, x)[at]) || (first(
            place(order, before, x),
            k,
        ).len() == k && (k > 0 ==> compare_rows(
            order,
            place(order, before, x)[at],
            first(place(order, before, x), k).last(),
        ) != Comparison::Less)),
{
    let placed = place(order, before, x);
    let best = first(placed, k);
    lemma_place_sorted(order, before, x);
    if at < best.len() {
        assert(best[at] == placed[at]);
    } else if k > 0 {
        assert(best.last() == placed[k - 1]);
        assert(compare_rows(order, placed[k - 1], placed[at]) != Comparison::Greater);
        lemma_compare_rows_reverse(order, placed[k - 1], placed[at]);
    }
}

/// A row that is no better than the last of `k` sorted rows is no better than the last of
/// the first `k` after another row has been put in its place.
proof fn lemma_outside_row(order: Seq<OrderBy>, k: nat, before: Seq<Row>, x: Row, y: Row)
    requires
        sorted(order, before),
        before.len() == k,
        k > 0,
        compare_rows(order, y, before.last()) != Comparison::Less,
    ensures
        first(place(order, before, x), k).len() == k,
        compare_rows(order, y, first(place(order, before, x), k).last()) != Comparison::Less,
{
    lemma_place_index(order, before, x);
    lemma_place_sorted(order, before, x);
    let p = place_index(order, before, x);
    let placed = before.insert(p, x);
    let best = first(placed, k);
    let old_last = before[k - 1];
    let new_last = placed[k - 1];
    assert(best.last() == new_last);
    assert(placed[k as int] == old_last || new_last == old_last) by {
        if p <= k - 1 {
            assert(placed[k as int] == before[k - 1]);
        } else {
            assert(placed[k - 1] == before[k - 1]);
        }
    }
    assert(compare_rows(order, new_last, old_last) != Comparison::Greater) by {
        if new_last != old_last {
            assert(compare_rows(order, placed[k - 1], placed[k as int]) != Comparison::Greater);
        } else {
            lemma_compare_rows_reverse(order, old_last, old_last);
        }
    }
    lemma_compare_rows_reverse(order, y, old_last);
    lemma_compare_rows_transitive(order, new_last, old_last, y);
    lemma_compare_rows_reverse(order, new_last, y);
}

/// Every one of the best rows is a row of `rows`.
pub proof fn lemma_top_k_members(order: Seq<OrderBy>, k: nat, rows: Seq<Row>)
    ensures
        forall|j: int|
            0 <= j < top_k(order, k, rows).len() ==> rows.contains(
                #[trigger] top_k(order, k, rows)[j],
            ),
    decreases rows.len(),
{
    if rows.len() > 0 {
        let init = rows.drop_last();
        let x = rows.last();
        let before = top_k(order, k, init);
        lemma_top_k_members(order, k, init);
        lemma_place_index(order, before, x);
        let p = place_index(order, before, x);
        let placed = before.insert(p, x);
        let best = top_k(order, k, rows);
        assert forall|j: int| 0 <= j < best.len() implies rows.contains(#[trigger] best[j]) by {
            assert(best[j] == placed[j]);
            if j == p {
                assert(rows[rows.len() - 1] == x);
            } else {
                let j0 = if j < p {
                    j
                } else {
                    j - 1
                };
                assert(placed[j] == before[j0]);
                assert(init.contains(before[j0]));
                let w = choose|w: int| 0 <= w < init.len() && init[w] == before[j0];
                assert(rows[w] == before[j0]);
            }
        }
    }
}

/// Every row of `rows` is one of the best, or is no better than the last of them, which
/// are then `k`.
pub proof fn lemma_top_k_best(order: Seq<OrderBy>, k: nat, rows: Seq<Row>)
    ensures
        forall|i: int|
            0 <= i < rows.len() ==> top_k(order, k, rows).contains(#[trigger] rows[i]) || (
            top_k(order, k, rows).len() == k && (k > 0 ==> compare_rows(
                order,
                rows[i],
                top_k(order, k, rows).last(),
            ) != Comparison::Less)),
    decreases rows.len(),
{
    if rows.len() > 0 {
        let init = rows.drop_last();
        let x = rows.last();
        let before = top_k(order, k, init);
        lemma_top_k_best(order, k, init);
        lemma_top_k_sorted(order, k, init);
        lemma_top_k_sorted(order, k, rows);
        lemma_place_index(order, before, x);
        let p = place_index(order, before, x);
        let placed = before.insert(p, x);
        let best = top_k(order, k, rows);
        assert forall|i: int| 0 <= i < rows.len() implies best.contains(#[trigger] rows[i]) || (
        best.len() == k && (k > 0 ==> compare_rows(order, rows[i], best.last())
            != Comparison::Less)) by {
            let y = rows[i];
            if i == rows.len() - 1 {
                assert(placed[p] == y);
                lemma_placed_row(order, k, before, x, p);
            } else {
                assert(init[i] == y);
                if before.contains(y) {
                    let w = choose|w: int| 0 <= w < before.len() && before[w] == y;
                    let at = if w < p {
                        w
                    } else {
                        w + 1
                    };
                    assert(placed[at] == y);
                    lemma_placed_row(order, k, before, x, at);
                } else if k > 0 {
                    lemma_outside_row(order, k, before, x, y);
                } else {
                    assert(best.len() == 0);
                }
            }
        }
    }
}

/// Compares two rows in the order `order`.
pub fn compare_in_order(order: &Vec<OrderBy>, a: &Vec<DataType>, b: &Vec<DataType>) -> (c:
    Comparison)
    requires
        forall|i: int|
            0 <= i < order@.len() ==> (#[trigger] order@[i]).column < a@.len() && order@[i].column
                < b@.len(),
    ensures
        c == compare_rows(order@, a.deep_view(), b.deep_view()),
{
    let mut i: usize = 0;
    proof {
        assert(order@.skip(0) =~= order@);
    }
    while i < order.len()
        invariant
            i <= order@.len(),
            forall|j: int|
                0 <= j < order@.len() ==> (#[trigger] order@[j]).column < a@.len()
                    && order@[j].column < b@.len(),
            compare_rows(order@, a.deep_view(), b.deep_view()) == compare_rows(
                order@.skip(i as int),
                a.deep_view(),
                b.deep_view(),
            ),
        decreases order@.len() - i,
    {
        let by = order[i];
        proof {
            assert(order@.skip(i as int)[0] == by);
            assert(order@.skip(i as int).skip(1) =~= order@.skip(i + 1));
            assert(a.deep_view()[by.column as int] == a@[by.column as int]@);
            assert(b.deep_view()[by.column as int] == b@[by.column as int]@);
        }
        let c = a[by.column].compare(&b[by.column]);
        let c = if by.descending {
            c.reverse()
        } else {
            c
        };
        if c != Comparison::Equal {
            return c;
        }
        i += 1;
    }
    Comparison::Equal
}

} // verus!
