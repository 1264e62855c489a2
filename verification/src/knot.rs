//! Knots in braid notation: reading a braid word into its diagram.

use crate::diagram;
use crate::diagram::{
    back, has_column, is_top_column, lemma_missing_below_grows, lemma_previous,
    lemma_previous_exists, lemma_top_column, missing_below, nearest, placed, previous,
    region_count, top_column, Crossing, Orientation,
};
use vstd::prelude::*;

verus! {

/// A struct used to represent a `Crossing` still in the process of being parsed.
#[derive(Copy, Clone, Debug)]
pub struct CrossingBuilder {
    pub top: Option<usize>,
    pub bottom: Option<usize>,
    pub left: Option<usize>,
    pub right: Option<usize>,
    pub column: u8,
    pub orientation: Orientation,
}

impl CrossingBuilder {
    /// Whether no region has been assigned yet.
    pub open spec fn is_fresh(self) -> bool {
        self.top is None && self.bottom is None && self.left is None && self.right is None
    }

    /// Whether all four regions have been assigned.
    pub open spec fn is_complete(self) -> bool {
        self.top is Some && self.bottom is Some && self.left is Some && self.right is Some
    }

    /// Attempts to create a `Crossing`: it is there once all four regions are.
    pub fn build(self) -> (built: Result<Crossing, ()>)
        ensures
            built is Ok <==> self.is_complete(),
            built matches Ok(crossing) ==> crossing == (Crossing {
                top: self.top->0,
                bottom: self.bottom->0,
                left: self.left->0,
                right: self.right->0,
                column: self.column,
                orientation: self.orientation,
            }),
    {
        match (self.top, self.bottom, self.left, self.right) {
            (Some(top), Some(bottom), Some(left), Some(right)) => Ok(
                Crossing {
                    top,
                    bottom,
                    left,
                    right,
                    column: self.column,
                    orientation: self.orientation,
                },
            ),
            _ => Err(()),
        }
    }

    /// Creates a new `CrossingBuilder` with the given `column` number and `orientation`.
    pub fn new(column: u8, orientation: Orientation) -> (builder: Self)
        ensures
            builder.is_fresh(),
            builder.column == column,
            builder.orientation == orientation,
    {
        Self { top: None, bottom: None, left: None, right: None, column, orientation }
    }
}

/// The ways in which a braid word can fail to be read.
#[derive(Debug)]
pub enum KnotParseError {
    /// The word holds characters that are no ASCII letters: all of them, in
    /// the order of the word.
    InvalidCharacter(Vec<char>),
}

/// Whether `c` is one of `a` to `z`.
pub open spec fn is_lower(c: char) -> bool {
    'a' <= c <= 'z'
}

/// Whether `c` is one of `A` to `Z`.
pub open spec fn is_upper(c: char) -> bool {
    'A' <= c <= 'Z'
}

/// Whether `c` is an ASCII letter.
pub open spec fn is_letter(c: char) -> bool {
    is_lower(c) || is_upper(c)
}

/// The test "is no ASCII letter" as a predicate on characters.
pub open spec fn no_letter() -> spec_fn(char) -> bool {
    |c: char| !is_letter(c)
}

/// The column that a letter stands for: its place in the alphabet, from 0.
pub open spec fn letter_column(c: char) -> u8 {
    if is_lower(c) {
        (c as u32 - 'a' as u32) as u8
    } else {
        (c as u32 - 'A' as u32) as u8
    }
}

/// The orientation that a letter stands for: positive for lower case.
pub open spec fn letter_orientation(c: char) -> Orientation {
    if is_lower(c) {
        Orientation::Positive
    } else {
        Orientation::Negative
    }
}

/// The columns of a braid word.
pub open spec fn word_columns(word: Seq<char>) -> Seq<u8> {
    word.map_values(|c: char| letter_column(c))
}

/// Whether `c` is an ASCII letter.
fn is_ascii_letter(c: char) -> (letter: bool)
    ensures
        letter == is_letter(c),
{
    ('a' <= c && c <= 'z') || ('A' <= c && c <= 'Z')
}

/// The fresh crossing that a letter stands for.
fn letter_builder(c: char) -> (builder: CrossingBuilder)
    requires
        is_letter(c),
    ensures
        builder.is_fresh(),
        builder.column == letter_column(c),
        builder.column < 26,
        builder.orientation == letter_orientation(c),
{
    if 'a' <= c && c <= 'z' {
        CrossingBuilder::new((c as u32 - 'a' as u32) as u8, Orientation::Positive)
    } else {
        CrossingBuilder::new((c as u32 - 'A' as u32) as u8, Orientation::Negative)
    }
}

/// The columns of a row of builders.
pub open spec fn columns(builders: Seq<CrossingBuilder>) -> Seq<u8> {
    builders.map_values(|b: CrossingBuilder| b.column)
}

/// What a `Knot` stands for: its crossings in the order of the braid word, and
/// the number of regions of the unresolved diagram.
pub struct Diagram {
    pub crossings: Seq<Crossing>,
    pub regions: nat,
}

impl Diagram {
    /// The columns of the crossings.
    pub open spec fn columns(self) -> Seq<u8> {
        self.crossings.map_values(|c: Crossing| c.column)
    }

    /// Whether this is the diagram of its own columns: there is a crossing,
    /// each one has the regions that its place gives it, and the regions are
    /// counted as the diagram has them.
    pub open spec fn wf(self) -> bool {
        &&& self.crossings.len() > 0
        &&& self.regions == region_count(self.columns())
        &&& forall|i: int|
            0 <= i < self.crossings.len() ==> placed(self.columns(), #[trigger] self.crossings[i], i)
    }
}

/// Represents a knot.
pub struct Knot {
    crossings: Vec<Crossing>,
    region_num: usize,
}

impl View for Knot {
    type V = Diagram;

    closed spec fn view(&self) -> Diagram {
        Diagram { crossings: self.crossings@, regions: self.region_num as nat }
    }
}

/// The number of steps from the place after `i` forward to place `x`.
spec fn ahead(len: int, i: int, x: int) -> int {
    if x > i {
        x - i - 1
    } else {
        x + len - i - 1
    }
}

/// The place `s` steps after the place after `i`.
spec fn forth(len: int, i: int, s: int) -> int {
    if i + 1 + s < len {
        i + 1 + s
    } else {
        i + 1 + s - len
    }
}

/// A scan that starts after crossing `i` and stops at the first crossing of
/// the same column has passed exactly the places whose nearest crossing of
/// that column is `i`.
proof fn lemma_scan(cols: Seq<u8>, i: int, x: int, stop: int)
    requires
        0 <= i < cols.len(),
        0 <= x < cols.len(),
        0 <= stop < cols.len(),
        cols[forth(cols.len() as int, i, stop)] == cols[i],
        forall|s: int| 0 <= s < stop ==> cols[#[trigger] forth(cols.len() as int, i, s)] != cols[i],
    ensures
        previous(cols, cols[i] as int, x) == i <==> ahead(cols.len() as int, i, x) <= stop,
{
    let len = cols.len() as int;
    let c = cols[i] as int;
    let a = ahead(len, i, x);
    if a <= stop {
        assert forall|e: int| 1 <= e < a + 1 implies cols[#[trigger] back(len, x, e)] != c by {
            assert(back(len, x, e) == forth(len, i, a - e));
        }
        assert(back(len, x, a + 1) == i);
        assert(nearest(cols, c, x, a + 1));
        lemma_previous(cols, c, x, a + 1);
    } else {
        let d0 = a - stop;
        assert(back(len, x, d0) == forth(len, i, stop));
        assert(has_column(cols, c));
        lemma_previous_exists(cols, c, x);
        let d = choose|d: int| nearest(cols, c, x, d);
        if d > d0 {
            assert(cols[back(len, x, d0)] != c);
        }
        assert(back(len, x, d) == forth(len, i, a - d));
    }
}

/// The region above crossing `x` once the crossings before `t` have had their turn.
spec fn staged_top(cols: Seq<u8>, t: int, x: int) -> Option<usize> {
    let p = previous(cols, cols[x] as int, x);
    if p < t {
        Some((2 + p) as usize)
    } else {
        None
    }
}

/// The region below crossing `x` once the crossings before `t` have had their turn.
spec fn staged_bottom(t: int, x: int) -> Option<usize> {
    if x < t {
        Some((2 + x) as usize)
    } else {
        None
    }
}

/// The region between crossing `x` and column `c` once the crossings before
/// `t` have had their turn.
spec fn staged_side(cols: Seq<u8>, c: int, t: int, x: int) -> Option<usize> {
    if has_column(cols, c) && previous(cols, c, x) < t {
        Some((2 + previous(cols, c, x)) as usize)
    } else {
        None
    }
}

/// The region left of crossing `x` once the crossings before `t` have had their turn.
spec fn staged_left(cols: Seq<u8>, t: int, x: int) -> Option<usize> {
    if cols[x] == 0 {
        if x < t {
            Some(0)
        } else {
            None
        }
    } else {
        staged_side(cols, cols[x] - 1, t, x)
    }
}

/// The region right of crossing `x` once the crossings before `t` have had their turn.
spec fn staged_right(cols: Seq<u8>, top: int, t: int, x: int) -> Option<usize> {
    if cols[x] == top {
        if x < t {
            Some(1)
        } else {
            None
        }
    } else {
        staged_side(cols, cols[x] + 1, t, x)
    }
}

/// The region between crossing `x` and column `c` once every crossing has had
/// its turn and the missing columns below `m` have their regions.
spec fn settled_side(cols: Seq<u8>, c: int, m: int, x: int) -> Option<usize> {
    if has_column(cols, c) {
        Some((2 + previous(cols, c, x)) as usize)
    } else if c < m {
        Some((2 + cols.len() + missing_below(cols, c)) as usize)
    } else {
        None
    }
}

/// The region left of crossing `x` once the missing columns below `m` have theirs.
spec fn settled_left(cols: Seq<u8>, m: int, x: int) -> Option<usize> {
    if cols[x] == 0 {
        Some(0)
    } else {
        settled_side(cols, cols[x] - 1, m, x)
    }
}

/// The region right of crossing `x` once the missing columns below `m` have theirs.
spec fn settled_right(cols: Seq<u8>, top: int, m: int, x: int) -> Option<usize> {
    if cols[x] == top {
        Some(1)
    } else {
        settled_side(cols, cols[x] + 1, m, x)
    }
}

/// Among the first `n` of some columns, one is the largest.
proof fn lemma_largest_exists(cols: Seq<u8>, n: int)
    requires
        0 < n <= cols.len(),
    ensures
        exists|m: int| is_top_column(cols.take(n), m),
    decreases n,
{
    let first = cols.take(n);
    if n == 1 {
        assert(first[0] == cols[0]);
        assert(is_top_column(first, cols[0] as int));
    } else {
        lemma_largest_exists(cols, n - 1);
        let before = cols.take(n - 1);
        let m = choose|m: int| is_top_column(before, m);
        let k = choose|k: int| 0 <= k < before.len() && (#[trigger] before[k]) == m;
        assert(first[k] == m);
        assert(first[n - 1] == cols[n - 1]);
        assert forall|i: int| 0 <= i < n - 1 implies (#[trigger] first[i]) <= m by {
            assert(before[i] == first[i]);
        }
        if cols[n - 1] <= m {
            assert(is_top_column(first, m));
        } else {
            assert(is_top_column(first, cols[n - 1] as int));
        }
    }
}

/// The largest column among the builders.
fn largest_column(builders: &Vec<CrossingBuilder>) -> (max: u8)
    requires
        builders@.len() > 0,
    ensures
        is_top_column(columns(builders@), max as int),
{
    let ghost cols = columns(builders@);
    let mut max = builders[0].column;
    let mut i: usize = 1;
    assert(cols[0] == max);
    while i < builders.len()
        invariant
            1 <= i <= builders@.len(),
            cols == columns(builders@),
            has_column(cols, max as int),
            forall|k: int| 0 <= k < i ==> (#[trigger] cols[k]) <= max,
        decreases builders@.len() - i,
    {
        if builders[i].column > max {
            max = builders[i].column;
            assert(cols[i as int] == max);
        }
        i += 1;
    }
    max
}

/// Whether one of the builders stands in `column`.
fn column_present(builders: &Vec<CrossingBuilder>, column: u8) -> (present: bool)
    ensures
        present == has_column(columns(builders@), column as int),
{
    let ghost cols = columns(builders@);
    let mut i: usize = 0;
    while i < builders.len()
        invariant
            i <= builders@.len(),
            cols == columns(builders@),
            forall|k: int| 0 <= k < i ==> (#[trigger] cols[k]) != column,
        decreases builders@.len() - i,
    {
        if builders[i].column == column {
            assert(cols[i as int] == column);
            return true;
        }
        i += 1;
    }
    false
}

impl Knot {
    /// Whether the knot is the diagram of a braid word.
    pub open spec fn wf(&self) -> bool {
        self@.wf()
    }

    /// Returns the number of regions in the unresolved knot.
    pub fn num_regions(&self) -> (regions: usize)
        ensures
            regions == self@.regions,
    {
        self.region_num
    }

    /// Returns the number of crossings in the knot.
    pub fn num_crossings(&self) -> (crossings: usize)
        ensures
            crossings == self@.crossings.len(),
    {
        self.crossings.len()
    }

    /// Returns the crossing at `index`, in the order of the braid word.
    pub fn crossing(&self, index: usize) -> (crossing: Crossing)
        requires
            index < self@.crossings.len(),
        ensures
            crossing == self@.crossings[index as int],
    {
        self.crossings[index]
    }

    /// Attempts to create a `Knot` from an input `str`.
    ///
    /// Every character has to be an ASCII letter; if some are not, all of them
    /// are reported. The letter gives the column of a crossing, `a` and `A`
    /// being column 0, and its case the orientation.
    pub fn from_str(s: &str) -> (parsed: Result<Knot, KnotParseError>)
        requires
            0 < s@.len(),
            s@.len() + 27 <= usize::MAX,
        ensures
            match parsed {
                Ok(knot) => {
                    &&& s@.filter(no_letter()).len() == 0
                    &&& knot.wf()
                    &&& knot@.columns() == word_columns(s@)
                    &&& forall|i: int|
                        0 <= i < s@.len() ==> (#[trigger] knot@.crossings[i]).orientation
                            == letter_orientation(s@[i])
                },
                Err(KnotParseError::InvalidCharacter(bad)) => {
                    &&& bad@ == s@.filter(no_letter())
                    &&& bad@.len() > 0
                },
            },
    {
        let ghost word = s@;
        let mut bad_chars: Vec<char> = Vec::new();
        for c in it: s.chars()
            invariant
                it.seq() == word,
                bad_chars@ == word.take(it.index()).filter(no_letter()),
        {
            proof {
                let done = it.index();
                assert(word.take(done + 1) =~= word.take(done).push(c));
                word.take(done).lemma_filter_push(c, no_letter());
            }
            if !is_ascii_letter(c) {
                bad_chars.push(c);
            }
        }
        proof {
            assert(word.take(word.len() as int) =~= word);
        }
        if !bad_chars.is_empty() {
            Err(KnotParseError::InvalidCharacter(bad_chars))
        } else {
            let mut crossing_builders: Vec<CrossingBuilder> = Vec::new();
            for c in it: s.chars()
                invariant
                    it.seq() == word,
                    word.filter(no_letter()).len() == 0,
                    crossing_builders@.len() == it.index(),
                    forall|k: int|
                        0 <= k < it.index() ==> {
                            let b = #[trigger] crossing_builders@[k];
                            &&& b.is_fresh()
                            &&& b.column == letter_column(word[k])
                            &&& b.column < 26
                            &&& b.orientation == letter_orientation(word[k])
                        },
            {
                proof {
                    if !is_letter(c) {
                        word.lemma_filter_contains(no_letter(), it.index());
                    }
                }
                crossing_builders.push(letter_builder(c));
            }
            proof {
                let cols = columns(crossing_builders@);
                assert(cols =~= word_columns(word));
                lemma_largest_exists(cols, cols.len() as int);
                assert(cols.take(cols.len() as int) =~= cols);
                let k = choose|k: int| is_top_column(cols, k);
                lemma_top_column(cols, k);
                let at = choose|i: int| 0 <= i < cols.len() && (#[trigger] cols[i]) == k;
                assert(crossing_builders@[at].column < 26);
                diagram::lemma_missing_below_bound(cols, k);
            }
            Ok(Knot::from_crossing_builders(crossing_builders))
        }
    }

    /// Builds the diagram of a row of fresh crossings.
    ///
    /// Each crossing in turn opens a region below itself and looks forward,
    /// round the end of the row, for the next crossing of its own column: that
    /// one has the region above it, and the crossings passed on the way in the
    /// two neighbouring columns have it at their side. The outermost columns
    /// have an outer region at their side, and each column without a crossing
    /// gives one more region to the columns next to it.
    pub fn from_crossing_builders(crossing_builders: Vec<CrossingBuilder>) -> (knot: Knot)
        requires
            crossing_builders@.len() > 0,
            forall|i: int|
                0 <= i < crossing_builders@.len() ==> (#[trigger] crossing_builders@[i]).is_fresh(),
            region_count(columns(crossing_builders@)) <= usize::MAX,
        ensures
            knot.wf(),
            knot@.columns() == columns(crossing_builders@),
            knot@.crossings.len() == crossing_builders@.len(),
            forall|i: int|
                0 <= i < crossing_builders@.len() ==> (#[trigger] knot@.crossings[i]).orientation
                    == crossing_builders@[i].orientation,
    {
        let mut crossing_builders = crossing_builders;
        let ghost start = crossing_builders@;
        let ghost cols = columns(start);
        let len = crossing_builders.len();
        let max_column = largest_column(&crossing_builders);
        let ghost top = max_column as int;
        proof {
            lemma_top_column(cols, top);
            lemma_missing_below_grows(cols, 0, top);
            assert forall|x: int| 0 <= x < len implies {
                let b = #[trigger] crossing_builders@[x];
                &&& b.column == cols[x]
                &&& b.top == staged_top(cols, 0, x)
                &&& b.left == staged_left(cols, 0, x)
                &&& b.right == staged_right(cols, top, 0, x)
            } by {
                lemma_previous_exists(cols, cols[x] as int, x);
                if has_column(cols, cols[x] - 1) {
                    lemma_previous_exists(cols, cols[x] - 1, x);
                }
                if has_column(cols, cols[x] + 1) {
                    lemma_previous_exists(cols, cols[x] + 1, x);
                }
            }
        }

        let mut index: usize = 2;
        let mut i: usize = 0;
        while i < len
            invariant
                i <= len,
                len == crossing_builders@.len(),
                len == cols.len(),
                len == start.len(),
                cols == columns(start),
                2 + len <= usize::MAX,
                index == 2 + i,
                is_top_column(cols, top),
                top == max_column,
                forall|x: int|
                    0 <= x < len ==> {
                        let b = #[trigger] crossing_builders@[x];
                        &&& b.column == cols[x]
                        &&& b.orientation == start[x].orientation
                        &&& b.top == staged_top(cols, i as int, x)
                        &&& b.bottom == staged_bottom(i as int, x)
                        &&& b.left == staged_left(cols, i as int, x)
                        &&& b.right == staged_right(cols, top, i as int, x)
                    },
            decreases len - i,
        {
            let column = crossing_builders[i].column;
            if column == 0 {
                crossing_builders[i].left = Some(0);
            }
            // can't have an else here in case there is only one column.

            if column == max_column {
                crossing_builders[i].right = Some(1);
            }
            crossing_builders[i].bottom = Some(index);

            let mut offset: usize = 0;
            let mut closed = false;
            while !closed
                invariant
                    i < len,
                    len == crossing_builders@.len(),
                    len == cols.len(),
                    len == start.len(),
                    cols == columns(start),
                    2 + len <= usize::MAX,
                    is_top_column(cols, top),
                    top == max_column,
                    column == cols[i as int],
                    offset < len,
                    index == 2 + i + if closed {
                        1int
                    } else {
                        0int
                    },
                    forall|s: int|
                        0 <= s < offset ==> cols[#[trigger] forth(len as int, i as int, s)] != column,
                    closed ==> cols[forth(len as int, i as int, offset as int)] == column,
                    forall|x: int|
                        0 <= x < len ==> {
                            let b = #[trigger] crossing_builders@[x];
                            let passed = ahead(len as int, i as int, x) < offset;
                            &&& b.column == cols[x]
                            &&& b.orientation == start[x].orientation
                            &&& b.top == if closed && x == forth(len as int, i as int, offset as int) {
                                Some((2 + i) as usize)
                            } else {
                                staged_top(cols, i as int, x)
                            }
                            &&& b.bottom == staged_bottom(i + 1, x)
                            &&& b.left == if cols[x] == 0 {
                                staged_left(cols, i + 1, x)
                            } else if cols[x] - 1 == column && passed {
                                Some((2 + i) as usize)
                            } else {
                                staged_side(cols, cols[x] - 1, i as int, x)
                            }
                            &&& b.right == if cols[x] == top {
                                staged_right(cols, top, i + 1, x)
                            } else if cols[x] + 1 == column && passed {
                                Some((2 + i) as usize)
                            } else {
                                staged_side(cols, cols[x] + 1, i as int, x)
                            }
                        },
                decreases 2 * (len - offset) + if closed {
                        0int
                    } else {
                        1int
                    },
            {
                let j = if offset < len - 1 - i {
                    i + 1 + offset
                } else {
                    offset - (len - 1 - i)
                };
                assert(j == forth(len as int, i as int, offset as int));
                assert(ahead(len as int, i as int, j as int) == offset);
                assert(forall|x: int|
                    0 <= x < len && x != j ==> ahead(len as int, i as int, x) != offset);
                let other = crossing_builders[j].column;
                if other == column {
                    crossing_builders[j].top = Some(index);
                    index += 1;
                    closed = true;
                } else {
                    if column < other && other - column == 1 {
                        crossing_builders[j].left = Some(index);
                    } else if other < column && column - other == 1 {
                        crossing_builders[j].right = Some(index);
                    }
                    assert(j != i);
                    offset += 1;
                }
            }
            proof {
                assert forall|x: int| 0 <= x < len implies {
                    let b = #[trigger] crossing_builders@[x];
                    &&& b.top == staged_top(cols, i + 1, x)
                    &&& b.left == staged_left(cols, i + 1, x)
                    &&& b.right == staged_right(cols, top, i + 1, x)
                } by {
                    lemma_scan(cols, i as int, x, offset as int);
                    assert(forth(len as int, i as int, ahead(len as int, i as int, x)) == x);
                    lemma_previous_exists(cols, cols[x] as int, x);
                    if has_column(cols, cols[x] - 1) {
                        lemma_previous_exists(cols, cols[x] - 1, x);
                    }
                    if has_column(cols, cols[x] + 1) {
                        lemma_previous_exists(cols, cols[x] + 1, x);
                    }
                }
            }
            i += 1;
        }

        proof {
            assert forall|x: int| 0 <= x < len implies {
                let b = #[trigger] crossing_builders@[x];
                &&& b.left == settled_left(cols, 0, x)
                &&& b.right == settled_right(cols, top, 0, x)
            } by {
                if has_column(cols, cols[x] - 1) {
                    lemma_previous_exists(cols, cols[x] - 1, x);
                }
                if has_column(cols, cols[x] + 1) {
                    lemma_previous_exists(cols, cols[x] + 1, x);
                }
            }
        }
        let mut missing: u8 = 0;
        while missing < max_column
            invariant
                missing <= max_column,
                len == crossing_builders@.len(),
                len == cols.len(),
                len == start.len(),
                cols == columns(start),
                is_top_column(cols, top),
                top == max_column,
                2 + len + missing_below(cols, top) <= usize::MAX,
                index == 2 + len + missing_below(cols, missing as int),
                forall|x: int|
                    0 <= x < len ==> {
                        let b = #[trigger] crossing_builders@[x];
                        &&& b.column == cols[x]
                        &&& b.orientation == start[x].orientation
                        &&& b.top == staged_top(cols, len as int, x)
                        &&& b.bottom == staged_bottom(len as int, x)
                        &&& b.left == settled_left(cols, missing as int, x)
                        &&& b.right == settled_right(cols, top, missing as int, x)
                    },
            decreases max_column - missing,
        {
            proof {
                lemma_missing_below_grows(cols, missing + 1, top);
                assert(columns(crossing_builders@) =~= cols);
            }
            if !column_present(&crossing_builders, missing) {
                let mut x: usize = 0;
                while x < len
                    invariant
                        x <= len,
                        missing < max_column,
                        len == crossing_builders@.len(),
                        len == cols.len(),
                        len == start.len(),
                        cols == columns(start),
                        top == max_column,
                        !has_column(cols, missing as int),
                        index == 2 + len + missing_below(cols, missing as int),
                        forall|y: int|
                            0 <= y < len ==> {
                                let b = #[trigger] crossing_builders@[y];
                                let m = if y < x {
                                    missing + 1
                                } else {
                                    missing as int
                                };
                                &&& b.column == cols[y]
                                &&& b.orientation == start[y].orientation
                                &&& b.top == staged_top(cols, len as int, y)
                                &&& b.bottom == staged_bottom(len as int, y)
                                &&& b.left == settled_left(cols, m, y)
                                &&& b.right == settled_right(cols, top, m, y)
                            },
                    decreases len - x,
                {
                    if crossing_builders[x].column == missing + 1 {
                        crossing_builders[x].left = Some(index);
                    }
                    if missing != 0 && crossing_builders[x].column == missing - 1 {
                        crossing_builders[x].right = Some(index);
                    }
                    x += 1;
                }
                index += 1;
            }
            missing += 1;
        }

        let mut crossings: Vec<Crossing> = Vec::new();
        let mut k: usize = 0;
        while k < len
            invariant
                k <= len,
                k == crossings@.len(),
                len == crossing_builders@.len(),
                len == cols.len(),
                len == start.len(),
                cols == columns(start),
                is_top_column(cols, top),
                top == max_column,
                top_column(cols) == top,
                2 + len + missing_below(cols, top) <= usize::MAX,
                forall|x: int|
                    0 <= x < len ==> {
                        let b = #[trigger] crossing_builders@[x];
                        &&& b.column == cols[x]
                        &&& b.orientation == start[x].orientation
                        &&& b.top == staged_top(cols, len as int, x)
                        &&& b.bottom == staged_bottom(len as int, x)
                        &&& b.left == settled_left(cols, top, x)
                        &&& b.right == settled_right(cols, top, top, x)
                    },
                forall|x: int|
                    0 <= x < k ==> placed(cols, #[trigger] crossings@[x], x) && crossings@[x].orientation
                        == start[x].orientation,
            decreases len - k,
        {
            let builder = crossing_builders[k];
            proof {
                let x = k as int;
                assert(has_column(cols, cols[x] as int));
                lemma_previous_exists(cols, cols[x] as int, x);
                if cols[x] != 0 {
                    if has_column(cols, cols[x] - 1) {
                        lemma_previous_exists(cols, cols[x] - 1, x);
                    } else {
                        lemma_missing_below_grows(cols, cols[x] - 1, top);
                    }
                }
                if cols[x] != top {
                    if has_column(cols, cols[x] + 1) {
                        lemma_previous_exists(cols, cols[x] + 1, x);
                    } else {
                        lemma_missing_below_grows(cols, cols[x] + 1, top);
                    }
                }
            }
            let crossing = builder.build().unwrap();
            crossings.push(crossing);
            k += 1;
        }
        let knot = Knot { crossings, region_num: index };
        proof {
            assert(knot@.columns() =~= cols);
        }
        knot
    }
}

} // verus!
