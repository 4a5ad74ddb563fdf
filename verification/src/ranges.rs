//! Closed integer ranges: sorting, merging and membership.
use vstd::prelude::*;

verus! {

/// The bounds of `ranges` as mathematical integers.
pub open spec fn bounds<T: Bound>(ranges: Seq<(T, T)>) -> Seq<(int, int)> {
    ranges.map_values(|r: (T, T)| (r.0.at(), r.1.at()))
}

/// Whether `x` lies in one of the ranges.
pub open spec fn covers(ranges: Seq<(int, int)>, x: int) -> bool {
    exists|i: int| 0 <= i < ranges.len() && (#[trigger] ranges[i]).0 <= x <= ranges[i].1
}

/// Whether no range ends before it starts.
pub open spec fn proper(ranges: Seq<(int, int)>) -> bool {
    forall|i: int| 0 <= i < ranges.len() ==> (#[trigger] ranges[i]).0 <= ranges[i].1
}

/// Whether the ranges come in the order of their starts.
pub open spec fn ordered(ranges: Seq<(int, int)>) -> bool {
    forall|i: int, j: int|
        0 <= i <= j < ranges.len() ==> (#[trigger] ranges[i]).0 <= (#[trigger] ranges[j]).0
}

/// Whether the ranges are proper, in order, and a gap lies between any two of them.
pub open spec fn canonical(ranges: Seq<(int, int)>) -> bool {
    &&& proper(ranges)
    &&& forall|i: int, j: int|
        0 <= i < j < ranges.len() ==> (#[trigger] ranges[i]).1 + 1 < (#[trigger] ranges[j]).0
}

/// The ranges after each one that overlaps or touches the last range kept was joined to it.
pub open spec fn merged(ranges: Seq<(int, int)>) -> Seq<(int, int)>
    decreases ranges.len(),
{
    if ranges.len() == 0 {
        Seq::empty()
    } else {
        let kept = merged(ranges.drop_last());
        let next = ranges.last();
        if kept.len() > 0 && next.0 <= kept.last().1 + 1 {
            let end = if kept.last().1 < next.1 {
                next.1
            } else {
                kept.last().1
            };
            kept.drop_last().push((kept.last().0, end))
        } else {
            kept.push(next)
        }
    }
}

/// Where halving the positions from `low` to `high` ends, in search of the first range that starts
/// above `x`.
pub open spec fn bisect(ranges: Seq<(int, int)>, x: int, low: int, high: int) -> int
    decreases high - low,
{
    if low < high {
        let mid = (low + high) / 2;
        if ranges[mid].0 <= x {
            bisect(ranges, x, mid + 1, high)
        } else {
            bisect(ranges, x, low, mid)
        }
    } else {
        low
    }
}

/// Whether the range before the place where the search for `x` ends reaches up to `x`.
pub open spec fn search_hits(ranges: Seq<(int, int)>, x: int) -> bool {
    let low = bisect(ranges, x, 0, ranges.len() as int);
    low > 0 && x <= ranges[low - 1].1
}

/// Merging ordered proper ranges gives canonical ones that cover the same integers.
pub proof fn lemma_merged(ranges: Seq<(int, int)>)
    requires
        ordered(ranges),
        proper(ranges),
    ensures
        canonical(merged(ranges)),
        forall|x: int| covers(merged(ranges), x) <==> covers(ranges, x),
        merged(ranges).len() <= ranges.len(),
        ranges.len() > 0 ==> merged(ranges).len() > 0 && merged(ranges).last().0 <= ranges.last().0,
    decreases ranges.len(),
{
    if ranges.len() > 0 {
        let front = ranges.drop_last();
        let next = ranges.last();
        assert(ordered(front));
        assert(proper(front));
        lemma_merged(front);
        let kept = merged(front);
        let out = merged(ranges);
        assert(ranges[ranges.len() - 1] == next);
        if front.len() > 0 {
            assert(ranges[front.len() - 1] == front.last());
            assert(front.last().0 <= next.0);
        }
        if kept.len() > 0 && next.0 <= kept.last().1 + 1 {
            let last = kept.last();
            assert(kept[kept.len() - 1] == last);
            assert(front.len() > 0) by {
                if front.len() == 0 {
                    assert(kept.len() == 0);
                }
            }
            assert(last.0 <= next.0);
            let k = out.len() - 1;
            assert(k == kept.len() - 1);
            assert(forall|i: int| 0 <= i < k ==> out[i] == kept[i]);
            assert forall|x: int| covers(out, x) <==> covers(ranges, x) by {
                if covers(out, x) {
                    let i = choose|i: int|
                        0 <= i < out.len() && (#[trigger] out[i]).0 <= x <= out[i].1;
                    if i < k {
                        assert(kept[i].0 <= x <= kept[i].1);
                        assert(covers(kept, x));
                        assert(covers(front, x));
                        let j = choose|j: int|
                            0 <= j < front.len() && (#[trigger] front[j]).0 <= x <= front[j].1;
                        assert(ranges[j] == front[j]);
                    } else if x <= last.1 {
                        assert(kept[k].0 <= x <= kept[k].1);
                        assert(covers(kept, x));
                        assert(covers(front, x));
                        let j = choose|j: int|
                            0 <= j < front.len() && (#[trigger] front[j]).0 <= x <= front[j].1;
                        assert(ranges[j] == front[j]);
                    } else {
                        assert(ranges[ranges.len() - 1].0 <= x <= ranges[ranges.len() - 1].1);
                    }
                }
                if covers(ranges, x) {
                    let j = choose|j: int|
                        0 <= j < ranges.len() && (#[trigger] ranges[j]).0 <= x <= ranges[j].1;
                    if j < front.len() {
                        assert(front[j].0 <= x <= front[j].1);
                        assert(covers(front, x));
                        assert(covers(kept, x));
                        let i = choose|i: int|
                            0 <= i < kept.len() && (#[trigger] kept[i]).0 <= x <= kept[i].1;
                        assert(out[i].0 <= x <= out[i].1);
                    } else {
                        assert(out[k].0 <= x <= out[k].1);
                    }
                }
            }
        } else {
            assert(forall|i: int| 0 <= i < kept.len() ==> out[i] == kept[i]);
            assert(out[kept.len() as int] == next);
            if kept.len() > 0 {
                assert(kept[kept.len() - 1] == kept.last());
                assert forall|i: int, j: int| 0 <= i < j < out.len() implies (#[trigger] out[i]).1 + 1
                    < (#[trigger] out[j]).0 by {
                    if j == kept.len() {
                        if i < kept.len() - 1 {
                            assert(kept[i].1 + 1 < kept[kept.len() - 1].0);
                        }
                    }
                }
            }
            assert forall|x: int| covers(out, x) <==> covers(ranges, x) by {
                if covers(out, x) {
                    let i = choose|i: int|
                        0 <= i < out.len() && (#[trigger] out[i]).0 <= x <= out[i].1;
                    if i < kept.len() {
                        assert(kept[i].0 <= x <= kept[i].1);
                        assert(covers(kept, x));
                        assert(covers(front, x));
                        let j = choose|j: int|
                            0 <= j < front.len() && (#[trigger] front[j]).0 <= x <= front[j].1;
                        assert(ranges[j] == front[j]);
                    } else {
                        assert(ranges[ranges.len() - 1].0 <= x <= ranges[ranges.len() - 1].1);
                    }
                }
                if covers(ranges, x) {
                    let j = choose|j: int|
                        0 <= j < ranges.len() && (#[trigger] ranges[j]).0 <= x <= ranges[j].1;
                    if j < front.len() {
                        assert(front[j].0 <= x <= front[j].1);
                        assert(covers(front, x));
                        assert(covers(kept, x));
                        let i = choose|i: int|
                            0 <= i < kept.len() && (#[trigger] kept[i]).0 <= x <= kept[i].1;
                        assert(out[i].0 <= x <= out[i].1);
                    } else {
                        assert(out[kept.len() as int].0 <= x <= out[kept.len() as int].1);
                    }
                }
            }
        }
    }
}

/// A bound of a range.
pub trait Bound: Copy {
    /// The integer that the bound stands for.
    spec fn at(self) -> int;

    /// Whether this bound is not above `other`.
    fn not_above(self, other: Self) -> (b: bool)
        ensures
            b == (self.at() <= other.at()),
    ;

    /// Whether a range that ends here overlaps or touches one that starts at `start`.
    fn reaches(self, start: Self) -> (b: bool)
        ensures
            b == (start.at() <= self.at() + 1),
    ;
}

impl Bound for u32 {
    open spec fn at(self) -> int {
        self as int
    }

    fn not_above(self, other: Self) -> (b: bool) {
        self <= other
    }

    fn reaches(self, start: Self) -> (b: bool) {
        start <= self || (self < u32::MAX && start == self + 1)
    }
}

impl Bound for u128 {
    open spec fn at(self) -> int {
        self as int
    }

    fn not_above(self, other: Self) -> (b: bool) {
        self <= other
    }

    fn reaches(self, start: Self) -> (b: bool) {
        start <= self || (self < u128::MAX && start == self + 1)
    }
}

fn merge_ranges<T: Bound>(ranges: Vec<(T, T)>) -> (out: Vec<(T, T)>)
    ensures
        bounds(out@) == merged(bounds(ranges@)),
{
    let mut out: Vec<(T, T)> = Vec::with_capacity(ranges.len());
    let mut i: usize = 0;
    let ghost all = bounds(ranges@);
    assert(bounds(out@) =~= merged(all.take(0)));
    while i < ranges.len()
        invariant
            i <= ranges@.len(),
            all == bounds(ranges@),
            bounds(out@) == merged(all.take(i as int)),
        decreases ranges@.len() - i,
    {
        let next = ranges[i];
        let n: usize = out.len();
        let ghost was = bounds(out@);
        assert(all.take(i + 1).drop_last() =~= all.take(i as int));
        assert(all.take(i + 1).last() == (next.0.at(), next.1.at()));
        i += 1;
        if n > 0 {
            let last = out[n - 1];
            assert(was.last() == (last.0.at(), last.1.at()));
            if last.1.reaches(next.0) {
                let end = if next.1.not_above(last.1) {
                    last.1
                } else {
                    next.1
                };
                out.set(n - 1, (last.0, end));
                assert(bounds(out@) =~= was.drop_last().push((last.0.at(), end.at())));
                continue ;
            }
        }
        out.push(next);
        assert(bounds(out@) =~= was.push((next.0.at(), next.1.at())));
    }
    assert(all.take(i as int) =~= all);
    out
}

proof fn lemma_bisect(ranges: Seq<(int, int)>, x: int, low: int, high: int)
    requires
        ordered(ranges),
        0 <= low <= high <= ranges.len(),
        forall|i: int| 0 <= i < low ==> (#[trigger] ranges[i]).0 <= x,
        forall|i: int| high <= i < ranges.len() ==> x < (#[trigger] ranges[i]).0,
    ensures
        low <= bisect(ranges, x, low, high) <= high,
        forall|i: int| 0 <= i < bisect(ranges, x, low, high) ==> (#[trigger] ranges[i]).0 <= x,
        forall|i: int|
            bisect(ranges, x, low, high) <= i < ranges.len() ==> x < (#[trigger] ranges[i]).0,
    decreases high - low,
{
    if low < high {
        let mid = (low + high) / 2;
        if ranges[mid].0 <= x {
            lemma_bisect(ranges, x, mid + 1, high);
        } else {
            lemma_bisect(ranges, x, low, mid);
        }
    }
}

/// In ranges that come in the order of their starts, the search hits `x` exactly where the last
/// range that starts at or below `x` reaches it.
pub proof fn law_search_in_ordered_ranges(ranges: Seq<(int, int)>, x: int)
    requires
        ordered(ranges),
    ensures
        search_hits(ranges, x) <==> exists|k: int|
            {
                &&& 0 <= k < ranges.len()
                &&& (#[trigger] ranges[k]).0 <= x <= ranges[k].1
                &&& forall|i: int| k < i < ranges.len() ==> x < (#[trigger] ranges[i]).0
            },
{
    let low = bisect(ranges, x, 0, ranges.len() as int);
    lemma_bisect(ranges, x, 0, ranges.len() as int);
    if search_hits(ranges, x) {
        assert(ranges[low - 1].0 <= x <= ranges[low - 1].1);
    }
    if exists|k: int|
        {
            &&& 0 <= k < ranges.len()
            &&& (#[trigger] ranges[k]).0 <= x <= ranges[k].1
            &&& forall|i: int| k < i < ranges.len() ==> x < (#[trigger] ranges[i]).0
        } {
        let k = choose|k: int|
            {
                &&& 0 <= k < ranges.len()
                &&& (#[trigger] ranges[k]).0 <= x <= ranges[k].1
                &&& forall|i: int| k < i < ranges.len() ==> x < (#[trigger] ranges[i]).0
            };
        if k >= low {
            assert(x < ranges[k].0);
        }
        if low - 1 > k {
            assert(x < ranges[low - 1].0);
            assert(ranges[low - 1].0 <= x);
        }
    }
}

/// In canonical ranges the search hits exactly the integers that the ranges cover.
pub proof fn law_search_in_canonical_ranges(ranges: Seq<(int, int)>, x: int)
    requires
        canonical(ranges),
    ensures
        search_hits(ranges, x) <==> covers(ranges, x),
{
    assert(ordered(ranges)) by {
        assert forall|i: int, j: int| 0 <= i <= j < ranges.len() implies (#[trigger] ranges[i]).0
            <= (#[trigger] ranges[j]).0 by {
            if i < j {
                assert(ranges[i].1 + 1 < ranges[j].0);
            }
        }
    }
    lemma_bisect(ranges, x, 0, ranges.len() as int);
    let low = bisect(ranges, x, 0, ranges.len() as int);
    if search_hits(ranges, x) {
        assert(ranges[low - 1].0 <= x <= ranges[low - 1].1);
    }
    if covers(ranges, x) {
        let k = choose|k: int| 0 <= k < ranges.len() && (#[trigger] ranges[k]).0 <= x <= ranges[k].1;
        if k >= low {
            assert(x < ranges[k].0);
        } else if k < low - 1 {
            assert(ranges[k].1 + 1 < ranges[low - 1].0);
            assert(ranges[low - 1].0 <= x);
        }
    }
}

/// Canonical ranges are determined by the integers that they cover.
pub proof fn law_canonical_ranges_are_unique(a: Seq<(int, int)>, b: Seq<(int, int)>)
    requires
        canonical(a),
        canonical(b),
        forall|x: int| covers(a, x) <==> covers(b, x),
    ensures
        a == b,
    decreases a.len() + b.len(),
{
    if a.len() == 0 && b.len() == 0 {
        assert(a =~= b);
    } else if a.len() == 0 {
        assert(b[0].0 <= b[0].0 <= b[0].1);
        assert(covers(b, b[0].0));
        assert(covers(a, b[0].0));
    } else if b.len() == 0 {
        assert(a[0].0 <= a[0].0 <= a[0].1);
        assert(covers(a, a[0].0));
        assert(covers(b, a[0].0));
    } else {
        lemma_last_range(a, b);
        lemma_last_range(b, a);
        let fa = a.drop_last();
        let fb = b.drop_last();
        assert forall|x: int| covers(fa, x) <==> covers(fb, x) by {
            lemma_covers_front(a, x);
            lemma_covers_front(b, x);
            assert(covers(a, x) <==> covers(b, x));
        }
        law_canonical_ranges_are_unique(fa, fb);
        assert(a =~= fa.push(a.last()));
        assert(b =~= fb.push(b.last()));
    }
}

/// The last range of `b` does not end after that of `a`, nor start before it.
proof fn lemma_last_range(a: Seq<(int, int)>, b: Seq<(int, int)>)
    requires
        canonical(a),
        canonical(b),
        a.len() > 0,
        b.len() > 0,
        forall|x: int| covers(a, x) <==> covers(b, x),
    ensures
        b.last().1 <= a.last().1,
        a.last().1 == b.last().1 ==> a.last().0 <= b.last().0,
{
    let m = a.len() - 1;
    let n = b.len() - 1;
    assert(b[n].0 <= b[n].1 <= b[n].1);
    assert(covers(b, b[n].1));
    assert(covers(a, b[n].1));
    let i = choose|i: int| 0 <= i < a.len() && (#[trigger] a[i]).0 <= b[n].1 <= a[i].1;
    if i < m {
        assert(a[i].1 + 1 < a[m].0);
    }
    if a[m].1 == b[n].1 && b[n].0 < a[m].0 {
        let x = a[m].0 - 1;
        assert(b[n].0 <= x <= b[n].1);
        assert(covers(b, x));
        assert(covers(a, x));
        let k = choose|k: int| 0 <= k < a.len() && (#[trigger] a[k]).0 <= x <= a[k].1;
        if k < m {
            assert(a[k].1 + 1 < a[m].0);
        }
    }
}

/// The ranges before the last cover what the whole covers below the last.
proof fn lemma_covers_front(a: Seq<(int, int)>, x: int)
    requires
        canonical(a),
        a.len() > 0,
    ensures
        covers(a.drop_last(), x) <==> covers(a, x) && x < a.last().0,
{
    let f = a.drop_last();
    let m = a.len() - 1;
    if covers(f, x) {
        let i = choose|i: int| 0 <= i < f.len() && (#[trigger] f[i]).0 <= x <= f[i].1;
        assert(a[i].0 <= x <= a[i].1);
        assert(a[i].1 + 1 < a[m].0);
    }
    if covers(a, x) && x < a.last().0 {
        let i = choose|i: int| 0 <= i < a.len() && (#[trigger] a[i]).0 <= x <= a[i].1;
        assert(f[i].0 <= x <= f[i].1);
    }
}

fn search<T: Bound>(ranges: &[(T, T)], value: T) -> (b: bool)
    ensures
        b == search_hits(bounds(ranges@), value.at()),
{
    let ghost r = bounds(ranges@);
    let ghost x = value.at();
    let mut low: usize = 0;
    let mut high: usize = ranges.len();
    while low < high
        invariant
            low <= high <= ranges@.len(),
            r == bounds(ranges@),
            x == value.at(),
            bisect(r, x, low as int, high as int) == bisect(r, x, 0, r.len() as int),
        decreases high - low,
    {
        let mid: usize = low + (high - low) / 2;
        if ranges[mid].0.not_above(value) {
            low = mid + 1;
        } else {
            high = mid;
        }
    }
    low > 0 && value.not_above(ranges[low - 1].1)
}

/// Two sequences of equal elements hold the same ranges.
proof fn lemma_same_ranges<T: Bound>(a: Seq<(T, T)>, b: Seq<(T, T)>)
    requires
        a.to_multiset() == b.to_multiset(),
    ensures
        forall|x: int| covers(bounds(a), x) <==> covers(bounds(b), x),
        proper(bounds(a)) ==> proper(bounds(b)),
        a.len() == b.len(),
{
    broadcast use vstd::seq_lib::group_to_multiset_ensures;

    assert(a.to_multiset().len() == a.len());
    assert(b.to_multiset().len() == b.len());
    assert forall|i: int| 0 <= i < b.len() implies a.contains(#[trigger] b[i]) by {
        assert(b.contains(b[i]));
        assert(b.to_multiset().count(b[i]) > 0);
    }
    assert forall|i: int| 0 <= i < a.len() implies b.contains(#[trigger] a[i]) by {
        assert(a.contains(a[i]));
        assert(a.to_multiset().count(a[i]) > 0);
    }
    let ra = bounds(a);
    let rb = bounds(b);
    assert forall|x: int| covers(ra, x) <==> covers(rb, x) by {
        if covers(ra, x) {
            let i = choose|i: int| 0 <= i < ra.len() && (#[trigger] ra[i]).0 <= x <= ra[i].1;
            assert(b.contains(a[i]));
            let j = choose|j: int| 0 <= j < b.len() && b[j] == a[i];
            assert(rb[j].0 <= x <= rb[j].1);
        }
        if covers(rb, x) {
            let i = choose|i: int| 0 <= i < rb.len() && (#[trigger] rb[i]).0 <= x <= rb[i].1;
            assert(a.contains(b[i]));
            let j = choose|j: int| 0 <= j < a.len() && a[j] == b[i];
            assert(ra[j].0 <= x <= ra[j].1);
        }
    }
    if proper(ra) {
        assert forall|i: int| 0 <= i < rb.len() implies (#[trigger] rb[i]).0 <= rb[i].1 by {
            assert(a.contains(b[i]));
            let j = choose|j: int| 0 <= j < a.len() && a[j] == b[i];
            assert(ra[j].0 <= ra[j].1);
        }
    }
}

fn weave<T: Bound>(a: &Vec<(T, T)>, b: &Vec<(T, T)>) -> (out: Vec<(T, T)>)
    requires
        ordered(bounds(a@)),
        ordered(bounds(b@)),
    ensures
        ordered(bounds(out@)),
        out@.to_multiset() == a@.to_multiset().add(b@.to_multiset()),
{
    broadcast use vstd::seq_lib::group_to_multiset_ensures;

    let ghost ra = bounds(a@);
    let ghost rb = bounds(b@);
    let mut out: Vec<(T, T)> = Vec::new();
    let mut i: usize = 0;
    let mut j: usize = 0;
    assert(a@.take(0) =~= Seq::<(T, T)>::empty());
    assert(b@.take(0) =~= Seq::<(T, T)>::empty());
    while i < a.len() || j < b.len()
        invariant
            ra == bounds(a@),
            rb == bounds(b@),
            ordered(ra),
            ordered(rb),
            i <= a@.len(),
            j <= b@.len(),
            ordered(bounds(out@)),
            forall|k: int|
                0 <= k < out@.len() && i < a@.len() ==> (#[trigger] bounds(out@)[k]).0
                    <= ra[i as int].0,
            forall|k: int|
                0 <= k < out@.len() && j < b@.len() ==> (#[trigger] bounds(out@)[k]).0
                    <= rb[j as int].0,
            out@.to_multiset() == a@.take(i as int).to_multiset().add(
                b@.take(j as int).to_multiset(),
            ),
        decreases a@.len() - i + b@.len() - j,
    {
        broadcast use vstd::seq_lib::group_to_multiset_ensures;

        let ghost was = out@;
        let from_a: bool = if i < a.len() {
            if j < b.len() {
                a[i].0.not_above(b[j].0)
            } else {
                true
            }
        } else {
            false
        };
        if from_a {
            out.push(a[i]);
            assert(a@.take(i + 1) =~= a@.take(i as int).push(a@[i as int]));
            assert(bounds(out@) =~= bounds(was).push(ra[i as int]));
            assert(out@.to_multiset() =~= a@.take(i + 1).to_multiset().add(
                b@.take(j as int).to_multiset(),
            ));
            i += 1;
        } else {
            out.push(b[j]);
            assert(b@.take(j + 1) =~= b@.take(j as int).push(b@[j as int]));
            assert(bounds(out@) =~= bounds(was).push(rb[j as int]));
            assert(out@.to_multiset() =~= a@.take(i as int).to_multiset().add(
                b@.take(j + 1).to_multiset(),
            ));
            j += 1;
        }
    }
    assert(a@.take(i as int) =~= a@);
    assert(b@.take(j as int) =~= b@);
    out
}

/// The ranges from `low` up to `high`, in the order of their starts.
fn sort_part<T: Bound>(ranges: &Vec<(T, T)>, low: usize, high: usize) -> (out: Vec<(T, T)>)
    requires
        low <= high <= ranges@.len(),
    ensures
        ordered(bounds(out@)),
        out@.to_multiset() == ranges@.subrange(low as int, high as int).to_multiset(),
    decreases high - low,
{
    broadcast use vstd::seq_lib::group_to_multiset_ensures;

    let mut out: Vec<(T, T)> = Vec::new();
    if low == high {
        assert(ranges@.subrange(low as int, high as int) =~= out@);
        return out;
    }
    if low + 1 == high {
        out.push(ranges[low]);
        assert(ranges@.subrange(low as int, high as int) =~= out@);
        return out;
    }
    let mid: usize = low + (high - low) / 2;
    let a = sort_part(ranges, low, mid);
    let b = sort_part(ranges, mid, high);
    proof {
        let left = ranges@.subrange(low as int, mid as int);
        let right = ranges@.subrange(mid as int, high as int);
        vstd::seq_lib::lemma_multiset_commutative(left, right);
        assert(left + right =~= ranges@.subrange(low as int, high as int));
    }
    weave(&a, &b)
}

/// The canonical ranges that cover what `ranges` cover.
pub fn canonical_ranges<T: Bound>(ranges: Vec<(T, T)>) -> (out: Vec<(T, T)>)
    requires
        proper(bounds(ranges@)),
    ensures
        canonical(bounds(out@)),
        forall|x: int| covers(bounds(out@), x) <==> covers(bounds(ranges@), x),
        out@.len() <= ranges@.len(),
{
    let sorted = sort_part(&ranges, 0, ranges.len());
    proof {
        assert(ranges@.subrange(0, ranges@.len() as int) =~= ranges@);
        lemma_same_ranges(ranges@, sorted@);
        lemma_merged(bounds(sorted@));
    }
    let out = merge_ranges(sorted);
    assert(out@.len() == bounds(out@).len());
    proof {
        assert forall|x: int| covers(bounds(out@), x) <==> covers(bounds(ranges@), x) by {
            assert(covers(bounds(out@), x) <==> covers(bounds(sorted@), x));
            assert(covers(bounds(ranges@), x) <==> covers(bounds(sorted@), x));
        }
    }
    out
}

/// Joins each range of IPv4 addresses that overlaps or touches the one kept before it.
///
/// Ranges that come in the order of their starts give canonical ranges with the same addresses.
pub fn merge_v4_ranges(ranges: Vec<(u32, u32)>) -> (out: Vec<(u32, u32)>)
    ensures
        bounds(out@) == merged(bounds(ranges@)),
        ordered(bounds(ranges@)) && proper(bounds(ranges@)) ==> {
            &&& canonical(bounds(out@))
            &&& forall|x: int| covers(bounds(out@), x) <==> covers(bounds(ranges@), x)
        },
{
    proof {
        if ordered(bounds(ranges@)) && proper(bounds(ranges@)) {
            lemma_merged(bounds(ranges@));
        }
    }
    merge_ranges(ranges)
}

/// Joins each range of IPv6 addresses that overlaps or touches the one kept before it.
///
/// Ranges that come in the order of their starts give canonical ranges with the same addresses.
pub fn merge_v6_ranges(ranges: Vec<(u128, u128)>) -> (out: Vec<(u128, u128)>)
    ensures
        bounds(out@) == merged(bounds(ranges@)),
        ordered(bounds(ranges@)) && proper(bounds(ranges@)) ==> {
            &&& canonical(bounds(out@))
            &&& forall|x: int| covers(bounds(out@), x) <==> covers(bounds(ranges@), x)
        },
{
    proof {
        if ordered(bounds(ranges@)) && proper(bounds(ranges@)) {
            lemma_merged(bounds(ranges@));
        }
    }
    merge_ranges(ranges)
}

/// Looks `value` up in ranges of IPv4 addresses by halving.
///
/// In canonical ranges this tells whether one of them holds `value`.
pub fn range_contains_v4(ranges: &[(u32, u32)], value: u32) -> (b: bool)
    ensures
        b == search_hits(bounds(ranges@), value as int),
        canonical(bounds(ranges@)) ==> b == covers(bounds(ranges@), value as int),
{
    proof {
        if canonical(bounds(ranges@)) {
            law_search_in_canonical_ranges(bounds(ranges@), value as int);
        }
    }
    search(ranges, value)
}

/// Looks `value` up in ranges of IPv6 addresses by halving.
///
/// In canonical ranges this tells whether one of them holds `value`.
pub fn range_contains_v6(ranges: &[(u128, u128)], value: u128) -> (b: bool)
    ensures
        b == search_hits(bounds(ranges@), value as int),
        canonical(bounds(ranges@)) ==> b == covers(bounds(ranges@), value as int),
{
    proof {
        if canonical(bounds(ranges@)) {
            law_search_in_canonical_ranges(bounds(ranges@), value as int);
        }
    }
    search(ranges, value)
}

} // verus!
