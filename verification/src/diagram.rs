//! What the planar diagram of a braid word is: which region lies on each of
//! the four sides of every crossing, and how many regions there are.
//!
//! The crossings of a braid word are read in order and closed into a cycle:
//! after the last crossing comes the first again. Regions 0 and 1 are the
//! outer region seen from the left and from the right of the diagram. Every
//! crossing opens one region of its own below itself, and every column that
//! holds no crossing, but lies left of one that does, is one more region.

use vstd::prelude::*;

verus! {

/// The two possible orientations for a crossing.
#[derive(Copy, Clone, Debug, PartialEq, Eq, Structural)]
pub enum Orientation {
    Positive,
    Negative,
}

/// Represents one crossing of two strands in a knot, with the regions that
/// touch its four sides.
#[derive(Copy, Clone, Debug, PartialEq, Eq)]
pub struct Crossing {
    pub top: usize,
    pub bottom: usize,
    pub left: usize,
    pub right: usize,
    pub column: u8,
    pub orientation: Orientation,
}

/// Whether some crossing stands in column `c`.
pub open spec fn has_column(cols: Seq<u8>, c: int) -> bool {
    exists|i: int| 0 <= i < cols.len() && (#[trigger] cols[i]) == c
}

/// Whether `m` is the largest column that holds a crossing.
pub open spec fn is_top_column(cols: Seq<u8>, m: int) -> bool {
    has_column(cols, m) && forall|i: int| 0 <= i < cols.len() ==> (#[trigger] cols[i]) <= m
}

/// The largest column that holds a crossing.
pub open spec fn top_column(cols: Seq<u8>) -> int {
    choose|m: int| is_top_column(cols, m)
}

/// The number of columns below `c` that hold no crossing.
pub open spec fn missing_below(cols: Seq<u8>, c: int) -> nat
    decreases c,
{
    if c <= 0 {
        0
    } else {
        missing_below(cols, c - 1) + if has_column(cols, c - 1) {
            0nat
        } else {
            1nat
        }
    }
}

/// The number of regions of the diagram: the two outer ones, one for each
/// crossing, and one for each missing column.
pub open spec fn region_count(cols: Seq<u8>) -> nat {
    2 + cols.len() + missing_below(cols, top_column(cols))
}

/// The place `d` steps before place `i` on a cycle of `len` places.
pub open spec fn back(len: int, i: int, d: int) -> int {
    if i - d >= 0 {
        i - d
    } else {
        i - d + len
    }
}

/// Whether `d` is the number of steps from place `i` back to the nearest
/// crossing in column `c`. Place `i` itself is the farthest, a full turn away.
pub open spec fn nearest(cols: Seq<u8>, c: int, i: int, d: int) -> bool {
    &&& 1 <= d <= cols.len()
    &&& cols[back(cols.len() as int, i, d)] == c
    &&& forall|e: int| 1 <= e < d ==> cols[#[trigger] back(cols.len() as int, i, e)] != c
}

/// The place of the nearest crossing in column `c` before place `i`.
pub open spec fn previous(cols: Seq<u8>, c: int, i: int) -> int {
    back(cols.len() as int, i, choose|d: int| nearest(cols, c, i, d))
}

/// The region below crossing `i`: the one that the crossing opens.
pub open spec fn bottom_region(i: int) -> int {
    2 + i
}

/// The region above crossing `i`: the one opened by the crossing before it in
/// its own column.
pub open spec fn top_region(cols: Seq<u8>, i: int) -> int {
    bottom_region(previous(cols, cols[i] as int, i))
}

/// The region between the column of crossing `i` and its neighbour column `c`:
/// the one opened by the crossing before `i` in column `c`, or the region of
/// the missing column `c`.
pub open spec fn side_region(cols: Seq<u8>, c: int, i: int) -> int {
    if has_column(cols, c) {
        bottom_region(previous(cols, c, i))
    } else {
        (2 + cols.len() + missing_below(cols, c)) as int
    }
}

/// The region left of crossing `i`.
pub open spec fn left_region(cols: Seq<u8>, i: int) -> int {
    if cols[i] == 0 {
        0
    } else {
        side_region(cols, cols[i] - 1, i)
    }
}

/// The region right of crossing `i`.
pub open spec fn right_region(cols: Seq<u8>, i: int) -> int {
    if cols[i] == top_column(cols) {
        1
    } else {
        side_region(cols, cols[i] + 1, i)
    }
}

/// Whether `crossing` is crossing `i` of the diagram with these columns.
pub open spec fn placed(cols: Seq<u8>, crossing: Crossing, i: int) -> bool {
    &&& crossing.column == cols[i]
    &&& crossing.top == top_region(cols, i)
    &&& crossing.bottom == bottom_region(i)
    &&& crossing.left == left_region(cols, i)
    &&& crossing.right == right_region(cols, i)
}

/// The largest column, once one is known.
pub proof fn lemma_top_column(cols: Seq<u8>, m: int)
    requires
        is_top_column(cols, m),
    ensures
        top_column(cols) == m,
{
    let t = top_column(cols);
    assert(is_top_column(cols, t));
    let i = choose|i: int| 0 <= i < cols.len() && (#[trigger] cols[i]) == m;
    let j = choose|j: int| 0 <= j < cols.len() && (#[trigger] cols[j]) == t;
    assert(cols[i] <= t);
    assert(cols[j] <= m);
}

/// More columns are missing below a larger column.
pub proof fn lemma_missing_below_grows(cols: Seq<u8>, c: int, d: int)
    requires
        c <= d,
    ensures
        missing_below(cols, c) <= missing_below(cols, d),
        missing_below(cols, d) <= missing_below(cols, c) + (d - c),
    decreases d - c,
{
    if c < d {
        lemma_missing_below_grows(cols, c, d - 1);
    }
}

/// At most `c` columns are missing below column `c`.
pub proof fn lemma_missing_below_bound(cols: Seq<u8>, c: int)
    requires
        0 <= c,
    ensures
        missing_below(cols, c) <= c,
{
    lemma_missing_below_grows(cols, 0, c);
}

/// The nearest crossing in a column, once its distance is known.
pub proof fn lemma_previous(cols: Seq<u8>, c: int, i: int, d: int)
    requires
        nearest(cols, c, i, d),
    ensures
        previous(cols, c, i) == back(cols.len() as int, i, d),
{
    let found = choose|d: int| nearest(cols, c, i, d);
    assert(nearest(cols, c, i, found));
    if found < d {
        assert(cols[back(cols.len() as int, i, found)] != c);
    }
    if d < found {
        assert(cols[back(cols.len() as int, i, d)] != c);
    }
}

/// Going back from `i`, a crossing in column `c` comes up at distance `d` or
/// later, if there is one that far.
proof fn lemma_nearest_from(cols: Seq<u8>, c: int, i: int, d: int, far: int)
    requires
        0 <= i < cols.len(),
        1 <= d <= far <= cols.len(),
        cols[back(cols.len() as int, i, far)] == c,
        forall|e: int| 1 <= e < d ==> cols[#[trigger] back(cols.len() as int, i, e)] != c,
    ensures
        exists|n: int| nearest(cols, c, i, n),
    decreases far - d,
{
    if cols[back(cols.len() as int, i, d)] == c {
        assert(nearest(cols, c, i, d));
    } else {
        lemma_nearest_from(cols, c, i, d + 1, far);
    }
}

/// Where column `c` holds a crossing, the nearest one before `i` is a place
/// of the diagram, and stands in column `c`.
pub proof fn lemma_previous_exists(cols: Seq<u8>, c: int, i: int)
    requires
        0 <= i < cols.len(),
        has_column(cols, c),
    ensures
        0 <= previous(cols, c, i) < cols.len(),
        cols[previous(cols, c, i)] == c,
        nearest(cols, c, i, choose|d: int| nearest(cols, c, i, d)),
{
    let len = cols.len() as int;
    let k = choose|k: int| 0 <= k < cols.len() && (#[trigger] cols[k]) == c;
    let far = if k < i {
        i - k
    } else {
        i - k + len
    };
    assert(back(len, i, far) == k);
    lemma_nearest_from(cols, c, i, 1, far);
}

/// The four regions of a crossing are regions of the diagram: none is
/// numbered beyond the count.
pub proof fn lemma_regions_in_range(cols: Seq<u8>, crossing: Crossing, i: int)
    requires
        0 <= i < cols.len(),
        placed(cols, crossing, i),
        exists|m: int| is_top_column(cols, m),
    ensures
        crossing.top < region_count(cols),
        crossing.bottom < region_count(cols),
        crossing.left < region_count(cols),
        crossing.right < region_count(cols),
{
    let top = top_column(cols);
    let c = cols[i] as int;
    assert(is_top_column(cols, top));
    assert(has_column(cols, c));
    lemma_previous_exists(cols, c, i);
    if c != 0 {
        if has_column(cols, c - 1) {
            lemma_previous_exists(cols, c - 1, i);
        } else {
            lemma_missing_below_grows(cols, c, top);
        }
    }
    if c != top {
        if has_column(cols, c + 1) {
            lemma_previous_exists(cols, c + 1, i);
        } else {
            lemma_missing_below_grows(cols, c + 2, top);
        }
    }
}

} // verus!
