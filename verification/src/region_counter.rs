//! Counting the regions that are left while regions are merged pair by pair.

use std::collections::HashSet;
use vstd::prelude::*;
use vstd::std_specs::iter::IteratorSpec;

verus! {

broadcast use vstd::std_specs::hash::group_hash_axioms;

/// Whether `group` holds one of the two regions.
pub open spec fn touches(group: Set<usize>, first: usize, second: usize) -> bool {
    group.contains(first) || group.contains(second)
}

/// The regions of all the groups of `groups` that hold `first` or `second`.
pub open spec fn touched_union(groups: Seq<Set<usize>>, first: usize, second: usize) -> Set<usize> {
    Set::new(
        |r: usize|
            exists|i: int|
                0 <= i < groups.len() && touches(groups[i], first, second)
                    && #[trigger] groups[i].contains(r),
    )
}

/// The test "holds `first` or `second`" as a predicate on groups.
pub open spec fn touching(first: usize, second: usize) -> spec_fn(Set<usize>) -> bool {
    |g: Set<usize>| touches(g, first, second)
}

/// The test "holds neither `first` nor `second`" as a predicate on groups.
pub open spec fn apart(first: usize, second: usize) -> spec_fn(Set<usize>) -> bool {
    |g: Set<usize>| !touches(g, first, second)
}

/// A group with `first` and `second` added where it holds one of them.
pub open spec fn absorbing(first: usize, second: usize) -> spec_fn(Set<usize>) -> Set<usize> {
    |g: Set<usize>|
        if touches(g, first, second) {
            g.insert(first).insert(second)
        } else {
            g
        }
}

/// What a `RegionCounter` stands for: the number of regions that are still
/// distinct, and the groups of regions known to be one region.
pub struct Tally {
    pub count: int,
    pub groups: Seq<Set<usize>>,
}

impl Tally {
    /// The groups that hold `first` or `second`, in order.
    pub open spec fn touched(self, first: usize, second: usize) -> Seq<Set<usize>> {
        self.groups.filter(touching(first, second))
    }

    /// The groups that hold neither `first` nor `second`, in order.
    pub open spec fn untouched(self, first: usize, second: usize) -> Seq<Set<usize>> {
        self.groups.filter(apart(first, second))
    }

    /// Whether one group already holds both regions.
    pub open spec fn joined(self, first: usize, second: usize) -> bool {
        exists|i: int|
            0 <= i < self.groups.len() && (#[trigger] self.groups[i]).contains(first)
                && self.groups[i].contains(second)
    }

    /// Whether merging `first` and `second` lowers the count: the two differ,
    /// and it is not so that exactly one group is touched and holds both.
    pub open spec fn lowers(self, first: usize, second: usize) -> bool {
        first != second && !(self.touched(first, second).len() == 1 && self.joined(first, second))
    }

    /// The groups after `first` and `second` have been merged.
    pub open spec fn merged_groups(self, first: usize, second: usize) -> Seq<Set<usize>> {
        let hit = self.touched(first, second).len();
        if first == second {
            self.groups
        } else if hit == 0 {
            self.groups.push(set![first, second])
        } else if hit == 1 {
            self.groups.map_values(absorbing(first, second))
        } else {
            self.untouched(first, second).push(touched_union(self.groups, first, second))
        }
    }

    /// The tally after `first` and `second` have been merged.
    pub open spec fn combine(self, first: usize, second: usize) -> Tally {
        Tally {
            count: if self.lowers(first, second) {
                self.count - 1
            } else {
                self.count
            },
            groups: self.merged_groups(first, second),
        }
    }
}

/// Whether no region is in two of the groups.
pub open spec fn kept_apart(groups: Seq<Set<usize>>) -> bool {
    forall|i: int, j: int|
        0 <= i < groups.len() && 0 <= j < groups.len() && i != j ==> (#[trigger] groups[i]).disjoint(
            #[trigger] groups[j],
        )
}

impl Tally {
    /// Whether the groups are kept apart: no region is in two of them.
    pub open spec fn wf(self) -> bool {
        kept_apart(self.groups)
    }
}

/// Where no group is touched, none is counted as touched, and all as apart.
proof fn lemma_none_touched(groups: Seq<Set<usize>>, first: usize, second: usize)
    requires
        forall|i: int| 0 <= i < groups.len() ==> !touches(#[trigger] groups[i], first, second),
    ensures
        groups.filter(touching(first, second)).len() == 0,
        groups.filter(apart(first, second)) == groups,
    decreases groups.len(),
{
    reveal(Seq::filter);
    if groups.len() > 0 {
        let before = groups.drop_last();
        assert forall|i: int| 0 <= i < before.len() implies !touches(
            #[trigger] before[i],
            first,
            second,
        ) by {
            assert(before[i] == groups[i]);
        }
        lemma_none_touched(before, first, second);
        assert(before.push(groups.last()) =~= groups);
    } else {
        assert(groups.filter(apart(first, second)) =~= groups);
    }
}

/// A touched group is counted.
proof fn lemma_one_touched(groups: Seq<Set<usize>>, first: usize, second: usize, i: int)
    requires
        0 <= i < groups.len(),
        touches(groups[i], first, second),
    ensures
        groups.filter(touching(first, second)).len() >= 1,
    decreases groups.len(),
{
    reveal(Seq::filter);
    if i < groups.len() - 1 {
        let before = groups.drop_last();
        assert(before[i] == groups[i]);
        lemma_one_touched(before, first, second, i);
    }
}

/// Two touched groups are counted.
proof fn lemma_two_touched(groups: Seq<Set<usize>>, first: usize, second: usize, i: int, j: int)
    requires
        0 <= i < j < groups.len(),
        touches(groups[i], first, second),
        touches(groups[j], first, second),
    ensures
        groups.filter(touching(first, second)).len() >= 2,
    decreases groups.len(),
{
    reveal(Seq::filter);
    let before = groups.drop_last();
    assert(before[i] == groups[i]);
    if j < groups.len() - 1 {
        assert(before[j] == groups[j]);
        lemma_two_touched(before, first, second, i, j);
    } else {
        lemma_one_touched(before, first, second, i);
    }
}

/// A group that alone is touched is counted alone.
proof fn lemma_only_touched(groups: Seq<Set<usize>>, first: usize, second: usize, i: int)
    requires
        0 <= i < groups.len(),
        touches(groups[i], first, second),
        forall|j: int|
            0 <= j < groups.len() && j != i ==> !touches(#[trigger] groups[j], first, second),
    ensures
        groups.filter(touching(first, second)).len() == 1,
    decreases groups.len(),
{
    reveal(Seq::filter);
    let before = groups.drop_last();
    assert forall|j: int| 0 <= j < before.len() && j != i implies !touches(
        #[trigger] before[j],
        first,
        second,
    ) by {
        assert(before[j] == groups[j]);
    }
    if i < groups.len() - 1 {
        assert(before[i] == groups[i]);
        lemma_only_touched(before, first, second, i);
    } else {
        lemma_none_touched(before, first, second);
    }
}

/// The groups that are apart from two regions are groups of the tally, in
/// their order.
proof fn lemma_untouched(groups: Seq<Set<usize>>, first: usize, second: usize)
    requires
        kept_apart(groups),
    ensures
        kept_apart(groups.filter(apart(first, second))),
        forall|k: int|
            0 <= k < groups.filter(apart(first, second)).len() ==> !touches(
                #[trigger] groups.filter(apart(first, second))[k],
                first,
                second,
            ) && groups.contains(groups.filter(apart(first, second))[k]),
    decreases groups.len(),
{
    reveal(Seq::filter);
    let kept = groups.filter(apart(first, second));
    if groups.len() > 0 {
        let before = groups.drop_last();
        let last = groups.last();
        let kept_before = before.filter(apart(first, second));
        assert forall|i: int, j: int|
            0 <= i < before.len() && 0 <= j < before.len() && i != j implies (#[trigger] before[i]).disjoint(
            #[trigger] before[j],
        ) by {
            assert(before[i] == groups[i] && before[j] == groups[j]);
        }
        lemma_untouched(before, first, second);
        assert forall|k: int| 0 <= k < kept.len() implies !touches(#[trigger] kept[k], first, second)
            && groups.contains(kept[k]) by {
            if k < kept_before.len() {
                assert(kept[k] == kept_before[k]);
                let i = choose|i: int| 0 <= i < before.len() && before[i] == kept_before[k];
                assert(groups[i] == kept[k]);
            } else {
                assert(groups[groups.len() - 1] == kept[k]);
            }
        }
        assert forall|x: int, y: int|
            0 <= x < kept.len() && 0 <= y < kept.len() && x != y implies (#[trigger] kept[x]).disjoint(
            #[trigger] kept[y],
        ) by {
            if x < kept_before.len() && y < kept_before.len() {
                assert(kept[x] == kept_before[x] && kept[y] == kept_before[y]);
            } else {
                let inner = if x < y {
                    x
                } else {
                    y
                };
                assert(kept[inner] == kept_before[inner]);
                let i = choose|i: int| 0 <= i < before.len() && before[i] == kept_before[inner];
                assert(groups[i].disjoint(groups[groups.len() - 1]));
                assert(groups[groups.len() - 1].disjoint(groups[i]));
            }
        }
    }
}

/// Merging two regions that no group holds.
proof fn lemma_combine_none(tally: Tally, first: usize, second: usize)
    requires
        tally.wf(),
        first != second,
        forall|i: int|
            0 <= i < tally.groups.len() ==> !touches(#[trigger] tally.groups[i], first, second),
    ensures
        tally.touched(first, second).len() == 0,
        tally.combine(first, second).wf(),
        tally.combine(first, second).joined(first, second),
{
    let groups = tally.groups;
    lemma_none_touched(groups, first, second);
    let merged = tally.combine(first, second).groups;
    assert(merged == groups.push(set![first, second]));
    let last = groups.len() as int;
    assert(merged[last].contains(first) && merged[last].contains(second));
    assert forall|x: int, y: int|
        0 <= x < merged.len() && 0 <= y < merged.len() && x != y implies (#[trigger] merged[x]).disjoint(
        #[trigger] merged[y],
    ) by {
        if x < groups.len() && y < groups.len() {
            assert(groups[x].disjoint(groups[y]));
        } else if x < groups.len() {
            assert(!touches(groups[x], first, second));
        } else {
            assert(!touches(groups[y], first, second));
        }
    }
}

/// Merging two regions of which one group alone holds one or both.
proof fn lemma_combine_one(tally: Tally, first: usize, second: usize, i: int)
    requires
        tally.wf(),
        first != second,
        0 <= i < tally.groups.len(),
        touches(tally.groups[i], first, second),
        forall|j: int|
            0 <= j < tally.groups.len() && j != i ==> !touches(
                #[trigger] tally.groups[j],
                first,
                second,
            ),
    ensures
        tally.touched(first, second).len() == 1,
        tally.combine(first, second).wf(),
        tally.combine(first, second).joined(first, second),
{
    let groups = tally.groups;
    lemma_only_touched(groups, first, second, i);
    let merged = tally.combine(first, second).groups;
    assert(merged == groups.map_values(absorbing(first, second)));
    assert(merged[i] == groups[i].insert(first).insert(second));
    assert(merged[i].contains(first) && merged[i].contains(second));
    assert forall|x: int, y: int|
        0 <= x < merged.len() && 0 <= y < merged.len() && x != y implies (#[trigger] merged[x]).disjoint(
        #[trigger] merged[y],
    ) by {
        assert(groups[x].disjoint(groups[y]));
        assert(!touches(groups[x], first, second) || x == i);
        assert(!touches(groups[y], first, second) || y == i);
    }
}

/// Merging two regions that two groups hold.
proof fn lemma_combine_two(tally: Tally, first: usize, second: usize, i: int, j: int)
    requires
        tally.wf(),
        first != second,
        0 <= i < j < tally.groups.len(),
        touches(tally.groups[i], first, second),
        touches(tally.groups[j], first, second),
    ensures
        tally.touched(first, second).len() >= 2,
        tally.combine(first, second).wf(),
        tally.combine(first, second).joined(first, second),
{
    let groups = tally.groups;
    lemma_two_touched(groups, first, second, i, j);
    let merged = tally.combine(first, second).groups;
    let kept = tally.untouched(first, second);
    let all = touched_union(groups, first, second);
    assert(merged == kept.push(all));
    // the two hold one of the regions each
    assert(groups[i].disjoint(groups[j]));
    assert(groups[j].disjoint(groups[i]));
    assert(all.contains(first)) by {
        if groups[i].contains(first) {
            assert(groups[i].contains(first));
        } else {
            assert(groups[j].contains(first));
        }
    }
    assert(all.contains(second)) by {
        if groups[i].contains(second) {
            assert(groups[i].contains(second));
        } else {
            assert(groups[j].contains(second));
        }
    }
    let last = kept.len() as int;
    assert(merged[last].contains(first) && merged[last].contains(second));
    lemma_untouched(groups, first, second);
    assert forall|x: int, y: int|
        0 <= x < merged.len() && 0 <= y < merged.len() && x != y implies (#[trigger] merged[x]).disjoint(
        #[trigger] merged[y],
    ) by {
        if x < kept.len() && y < kept.len() {
            assert(merged[x] == kept[x] && merged[y] == kept[y]);
        } else {
            let inner = if x < y {
                x
            } else {
                y
            };
            assert(merged[inner] == kept[inner]);
            assert(!touches(kept[inner], first, second));
            let at = choose|at: int| 0 <= at < groups.len() && groups[at] == kept[inner];
            assert forall|r: usize| all.contains(r) implies !kept[inner].contains(r) by {
                let t = choose|t: int|
                    0 <= t < groups.len() && touches(groups[t], first, second) && #[trigger] groups[t].contains(
                        r,
                    );
                assert(groups[t].disjoint(groups[at]));
            }
        }
    }
}

/// Where the groups are kept apart, merging two regions lowers the count
/// unless the two are the same or already in one group; it leaves the two in
/// one group, and the groups apart.
pub proof fn lemma_combine(tally: Tally, first: usize, second: usize)
    requires
        tally.wf(),
    ensures
        tally.lowers(first, second) <==> first != second && !tally.joined(first, second),
        tally.combine(first, second).wf(),
        first != second ==> tally.combine(first, second).joined(first, second),
{
    let groups = tally.groups;
    if first != second {
        if tally.joined(first, second) {
            let i = choose|i: int|
                0 <= i < groups.len() && (#[trigger] groups[i]).contains(first) && groups[i].contains(
                    second,
                );
            assert forall|j: int| 0 <= j < groups.len() && j != i implies !touches(
                #[trigger] groups[j],
                first,
                second,
            ) by {
                assert(groups[i].disjoint(groups[j]));
            }
            lemma_combine_one(tally, first, second, i);
        } else if exists|i: int| 0 <= i < groups.len() && touches(#[trigger] groups[i], first, second) {
            let i = choose|i: int| 0 <= i < groups.len() && touches(#[trigger] groups[i], first, second);
            if exists|j: int|
                0 <= j < groups.len() && j != i && touches(#[trigger] groups[j], first, second) {
                let j = choose|j: int|
                    0 <= j < groups.len() && j != i && touches(#[trigger] groups[j], first, second);
                if i < j {
                    lemma_combine_two(tally, first, second, i, j);
                } else {
                    lemma_combine_two(tally, first, second, j, i);
                }
            } else {
                lemma_combine_one(tally, first, second, i);
            }
        } else {
            lemma_combine_none(tally, first, second);
        }
    }
}

/// Adds every region of `group` to `into`.
fn pour(into: &mut HashSet<usize>, group: &HashSet<usize>)
    ensures
        final(into)@ == old(into)@.union(group@),
{
    let ghost start = into@;
    let ghost keys = group.iter().remaining();
    for r in it: group.iter()
        invariant
            it.seq() == keys,
            into@ == start.union(keys.take(it.index()).unref().to_set()),
    {
        let ghost done = it.index();
        into.insert(*r);
        proof {
            assert(keys.take(done + 1) =~= keys.take(done).push(keys[done]));
            assert(keys.take(done + 1).unref() =~= keys.take(done).unref().push(*r));
            let a = keys.take(done).unref();
            let b = keys.take(done + 1).unref();
            assert forall|x: usize| b.to_set().contains(x) <==> a.to_set().insert(*r).contains(x) by {
                if a.contains(x) {
                    let j = choose|j: int| 0 <= j < a.len() && a[j] == x;
                    assert(b[j] == x);
                }
                if x == *r {
                    assert(b[done] == x);
                }
                if b.contains(x) {
                    let j = choose|j: int| 0 <= j < b.len() && b[j] == x;
                    if j < done {
                        assert(a[j] == x);
                    }
                }
            }
            assert(b.to_set() =~= a.to_set().insert(*r));
        }
    }
    proof {
        assert(keys.take(keys.len() as int) =~= keys);
    }
}

/// A utility for combining regions: it keeps the number of regions that are
/// still distinct while pairs of regions are declared to be the same.
pub struct RegionCounter {
    count: usize,
    regions: Vec<HashSet<usize>>,
}

impl View for RegionCounter {
    type V = Tally;

    closed spec fn view(&self) -> Tally {
        Tally {
            count: self.count as int,
            groups: self.regions@.map_values(|s: HashSet<usize>| s@),
        }
    }
}

impl RegionCounter {
    /// Creates a new `RegionCounter` with `start` as the initial number of regions.
    pub fn new(start: usize) -> (counter: Self)
        ensures
            counter@.count == start,
            counter@.groups == Seq::<Set<usize>>::empty(),
            counter@.wf(),
    {
        Self { count: start, regions: Vec::new() }
    }

    /// Combines the two regions passed in, reducing the total count if necessary.
    ///
    /// Nothing happens where `first == second`. Otherwise the groups that hold
    /// one of the two are looked up. With none, `{first, second}` becomes a new
    /// group; with one, the group takes in whichever of the two it lacks; with
    /// more, they are replaced by their union, put last. The count goes down by
    /// one, except where a single group already held both.
    pub fn combine(&mut self, first: usize, second: usize)
        requires
            old(self)@.lowers(first, second) ==> old(self)@.count > 0,
        ensures
            final(self)@ == old(self)@.combine(first, second),
            old(self)@.wf() ==> final(self)@.wf(),
    {
        proof {
            if self@.wf() {
                lemma_combine(self@, first, second);
            }
        }
        if first == second {
            return ;
        }
        let ghost before = self@;
        let ghost groups = before.groups;
        let total = self.regions.len();
        let mut hits: usize = 0;
        let mut at: usize = 0;
        let mut i: usize = 0;
        while i < total
            invariant
                i <= total,
                total == self.regions.len(),
                self@ == before,
                groups == before.groups,
                groups.len() == total,
                hits <= i,
                hits == groups.take(i as int).filter(touching(first, second)).len(),
                hits == 0 ==> forall|j: int| 0 <= j < i ==> !touches(#[trigger] groups[j], first, second),
                hits >= 1 ==> at < i && touches(groups[at as int], first, second),
                hits == 1 ==> forall|j: int|
                    0 <= j < i && j != at ==> !touches(#[trigger] groups[j], first, second),
            decreases total - i,
        {
            let has_first = self.regions[i].contains(&first);
            let has_second = self.regions[i].contains(&second);
            proof {
                assert(groups[i as int] == self.regions@[i as int]@);
                assert(groups.take(i + 1) =~= groups.take(i as int).push(groups[i as int]));
                groups.take(i as int).lemma_filter_push(groups[i as int], touching(first, second));
            }
            if has_first || has_second {
                if hits == 0 {
                    at = i;
                }
                hits += 1;
            }
            i += 1;
        }
        proof {
            assert(groups.take(total as int) =~= groups);
        }
        if hits >= 2 {
            let mut olds: Vec<HashSet<usize>> = Vec::new();
            std::mem::swap(&mut self.regions, &mut olds);
            let mut merged: HashSet<usize> = HashSet::new();
            let mut k: usize = 0;
            while k < total
                invariant
                    k <= total,
                    olds@.len() == total,
                    groups.len() == total,
                    forall|j: int| k <= j < total ==> (#[trigger] olds@[j])@ == groups[j],
                    self.regions@.map_values(|s: HashSet<usize>| s@) == groups.take(k as int).filter(
                        apart(first, second),
                    ),
                    merged@ == touched_union(groups.take(k as int), first, second),
                    self.count == before.count,
                decreases total - k,
            {
                let mut group: HashSet<usize> = HashSet::new();
                std::mem::swap(&mut olds[k], &mut group);
                proof {
                    assert(group@ == groups[k as int]);
                    assert(groups.take(k + 1) =~= groups.take(k as int).push(groups[k as int]));
                    groups.take(k as int).lemma_filter_push(groups[k as int], apart(first, second));
                }
                let has_first = group.contains(&first);
                let has_second = group.contains(&second);
                if has_first || has_second {
                    let ghost start = merged@;
                    pour(&mut merged, &group);
                    proof {
                        assert(merged@ =~= touched_union(groups.take(k + 1), first, second)) by {
                            assert forall|x: usize|
                                touched_union(groups.take(k + 1), first, second).contains(x)
                                implies merged@.contains(x) by {
                                let j = choose|j: int|
                                    0 <= j < groups.take(k + 1).len() && touches(
                                        groups.take(k + 1)[j],
                                        first,
                                        second,
                                    ) && #[trigger] groups.take(k + 1)[j].contains(x);
                                if j < k {
                                    assert(groups.take(k as int)[j].contains(x));
                                }
                            }
                            assert forall|x: usize| merged@.contains(x) implies touched_union(
                                groups.take(k + 1),
                                first,
                                second,
                            ).contains(x) by {
                                if start.contains(x) {
                                    let j = choose|j: int|
                                        0 <= j < groups.take(k as int).len() && touches(
                                            groups.take(k as int)[j],
                                            first,
                                            second,
                                        ) && #[trigger] groups.take(k as int)[j].contains(x);
                                    assert(groups.take(k + 1)[j].contains(x));
                                } else {
                                    assert(groups.take(k + 1)[k as int].contains(x));
                                }
                            }
                        }
                    }
                } else {
                    let ghost kept = self.regions@.map_values(|s: HashSet<usize>| s@);
                    self.regions.push(group);
                    assert(self.regions@.map_values(|s: HashSet<usize>| s@) =~= kept.push(
                        groups[k as int],
                    ));
                    assert(merged@ =~= touched_union(groups.take(k + 1), first, second));
                }
                k += 1;
            }
            proof {
                assert(groups.take(total as int) =~= groups);
            }
            let ghost kept = self.regions@.map_values(|s: HashSet<usize>| s@);
            self.regions.push(merged);
            assert(self.regions@.map_values(|s: HashSet<usize>| s@) =~= kept.push(
                touched_union(groups, first, second),
            ));
            self.count -= 1;
        } else if hits == 0 {
            let mut set = HashSet::new();
            set.insert(first);
            set.insert(second);
            self.regions.push(set);
            assert(self.regions@.map_values(|s: HashSet<usize>| s@) =~= groups.push(
                set![first, second],
            ));
            self.count -= 1;
        } else {
            let set = &mut self.regions[at];
            let first_is_new = set.insert(first);
            let second_is_new = set.insert(second);
            assert(self.regions@.map_values(|s: HashSet<usize>| s@) =~= groups.map_values(
                absorbing(first, second),
            ));
            if first_is_new || second_is_new {
                self.count -= 1;
            }
        }
    }

    /// Returns the current number of regions counted.
    pub fn current_count(&self) -> (count: usize)
        ensures
            count == self@.count,
    {
        self.count
    }
}

} // verus!
