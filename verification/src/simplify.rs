//! Ramer-Douglas-Peucker simplification of stroke paths.
//!
//! The walk is given the distance function: the decisions which points stay
//! are made here, on the distances that it returns.

use crate::float::F32;
use crate::stroke;
use crate::stroke::{StrokeDataView, StrokePoint};
use vstd::prelude::*;

verus! {

/// A distance function can be called on all points and always answers alike.
pub open spec fn well_defined<D: Fn(StrokePoint, StrokePoint, StrokePoint) -> F32>(distance: D) -> bool {
    &&& forall|p: StrokePoint, a: StrokePoint, b: StrokePoint| #[trigger] call_requires(distance, (p, a, b))
    &&& forall|p: StrokePoint, a: StrokePoint, b: StrokePoint, r: F32, s: F32| #[trigger]
        call_ensures(distance, (p, a, b), r) && #[trigger] call_ensures(distance, (p, a, b), s) ==> r == s
}

/// What a distance function returns, as a mathematical function.
pub open spec fn measure<D: Fn(StrokePoint, StrokePoint, StrokePoint) -> F32>(distance: D) -> spec_fn(
    StrokePoint,
    StrokePoint,
    StrokePoint,
) -> F32 {
    |p: StrokePoint, a: StrokePoint, b: StrokePoint| choose|r: F32| call_ensures(distance, (p, a, b), r)
}

/// The largest distance of the points after `s` and before `k` from the
/// segment between `s` and `e`, and the first point that has it. Where none is
/// farther than 0, the distance is 0 and the point is `s` itself.
pub open spec fn farthest(
    points: Seq<StrokePoint>,
    d: spec_fn(StrokePoint, StrokePoint, StrokePoint) -> F32,
    s: int,
    e: int,
    k: int,
) -> (F32, int)
    decreases k - s,
{
    if k <= s + 1 {
        (F32::zero(), s)
    } else {
        let (best, at) = farthest(points, d, s, e, k - 1);
        let here = d(points[k - 1], points[s], points[e]);
        if best.below(here) {
            (here, k - 1)
        } else {
            (best, at)
        }
    }
}

/// Whether the walk keeps the point `i` strictly between `s` and `e`: the
/// farthest point stays where it is farther than the tolerance, and the walk
/// goes on left and right of it.
pub open spec fn keeps_between(
    points: Seq<StrokePoint>,
    d: spec_fn(StrokePoint, StrokePoint, StrokePoint) -> F32,
    epsilon: F32,
    s: int,
    e: int,
    i: int,
) -> bool
    decreases e - s,
{
    let (best, at) = farthest(points, d, s, e, e);
    if e <= s + 1 || !epsilon.below(best) || !(s < at < e) {
        false
    } else {
        i == at || keeps_between(points, d, epsilon, s, at, i) || keeps_between(points, d, epsilon, at, e, i)
    }
}

/// Whether the walk between `s` and `e` ends. It does not where the tolerance
/// is below 0 and no point between has a distance above 0.
pub open spec fn halts_between(
    points: Seq<StrokePoint>,
    d: spec_fn(StrokePoint, StrokePoint, StrokePoint) -> F32,
    epsilon: F32,
    s: int,
    e: int,
) -> bool
    decreases e - s,
{
    let (best, at) = farthest(points, d, s, e, e);
    if e <= s + 1 || !epsilon.below(best) {
        true
    } else {
        s < at < e && halts_between(points, d, epsilon, s, at) && halts_between(points, d, epsilon, at, e)
    }
}

/// Whether the walk over all points ends.
pub open spec fn halts(
    points: Seq<StrokePoint>,
    d: spec_fn(StrokePoint, StrokePoint, StrokePoint) -> F32,
    epsilon: F32,
) -> bool {
    points.len() <= 2 || halts_between(points, d, epsilon, 0, points.len() - 1)
}

/// Whether the point `i` stays. The ends always do.
pub open spec fn keeps(
    points: Seq<StrokePoint>,
    d: spec_fn(StrokePoint, StrokePoint, StrokePoint) -> F32,
    epsilon: F32,
    i: int,
) -> bool {
    points.len() <= 2 || i == 0 || i == points.len() - 1 || keeps_between(points, d, epsilon, 0, points.len() - 1, i)
}

/// The indices below `n` of the points that stay, in order.
pub open spec fn kept_below(
    points: Seq<StrokePoint>,
    d: spec_fn(StrokePoint, StrokePoint, StrokePoint) -> F32,
    epsilon: F32,
    n: int,
) -> Seq<usize>
    decreases n,
{
    if n <= 0 {
        seq![]
    } else if keeps(points, d, epsilon, n - 1) {
        kept_below(points, d, epsilon, n - 1).push((n - 1) as usize)
    } else {
        kept_below(points, d, epsilon, n - 1)
    }
}

/// The indices of the points that stay, in order.
pub open spec fn kept(
    points: Seq<StrokePoint>,
    d: spec_fn(StrokePoint, StrokePoint, StrokePoint) -> F32,
    epsilon: F32,
) -> Seq<usize> {
    kept_below(points, d, epsilon, points.len() as int)
}

/// The points that stay.
pub open spec fn simplified(
    points: Seq<StrokePoint>,
    d: spec_fn(StrokePoint, StrokePoint, StrokePoint) -> F32,
    epsilon: F32,
) -> Seq<StrokePoint> {
    Seq::new(kept(points, d, epsilon).len(), |k: int| points[kept(points, d, epsilon)[k] as int])
}

/// A stroke path after simplification. Where nothing is dropped it is left as
/// it is, bounds included.
pub open spec fn simplified_data(
    data: StrokeDataView,
    d: spec_fn(StrokePoint, StrokePoint, StrokePoint) -> F32,
    epsilon: F32,
) -> StrokeDataView {
    if kept(data.points, d, epsilon).len() == data.points.len() {
        data
    } else {
        stroke::stroke_data(simplified(data.points, d, epsilon), data.tool)
    }
}

proof fn lemma_farthest(
    points: Seq<StrokePoint>,
    d: spec_fn(StrokePoint, StrokePoint, StrokePoint) -> F32,
    s: int,
    e: int,
    k: int,
)
    requires
        s < k,
    ensures
        s <= farthest(points, d, s, e, k).1 < k,
        farthest(points, d, s, e, k).1 == s ==> farthest(points, d, s, e, k).0 == F32::zero(),
    decreases k - s,
{
    if k > s + 1 {
        lemma_farthest(points, d, s, e, k - 1);
    }
}

/// With a tolerance that is not below 0 the walk ends.
pub proof fn lemma_halts(
    points: Seq<StrokePoint>,
    d: spec_fn(StrokePoint, StrokePoint, StrokePoint) -> F32,
    epsilon: F32,
)
    requires
        !epsilon.below(F32::zero()),
    ensures
        halts(points, d, epsilon),
{
    if points.len() > 2 {
        lemma_halts_between(points, d, epsilon, 0, points.len() - 1);
    }
}

proof fn lemma_halts_between(
    points: Seq<StrokePoint>,
    d: spec_fn(StrokePoint, StrokePoint, StrokePoint) -> F32,
    epsilon: F32,
    s: int,
    e: int,
)
    requires
        !epsilon.below(F32::zero()),
    ensures
        halts_between(points, d, epsilon, s, e),
    decreases e - s,
{
    let (best, at) = farthest(points, d, s, e, e);
    if e > s + 1 && epsilon.below(best) {
        lemma_farthest(points, d, s, e, e);
        lemma_halts_between(points, d, epsilon, s, at);
        lemma_halts_between(points, d, epsilon, at, e);
    }
}

/// The indices that stay are indices of points, in ascending order.
pub proof fn lemma_kept_bound(
    points: Seq<StrokePoint>,
    d: spec_fn(StrokePoint, StrokePoint, StrokePoint) -> F32,
    epsilon: F32,
    n: int,
)
    requires
        0 <= n <= points.len() <= usize::MAX,
    ensures
        kept_below(points, d, epsilon, n).len() <= n,
        forall|k: int|
            0 <= k < kept_below(points, d, epsilon, n).len() ==> (#[trigger] kept_below(points, d, epsilon, n)[k])
                < n,
    decreases n,
{
    if n > 0 {
        lemma_kept_bound(points, d, epsilon, n - 1);
    }
}

/// Where as many points stay as there are, nothing changes.
pub proof fn lemma_all_kept(
    points: Seq<StrokePoint>,
    d: spec_fn(StrokePoint, StrokePoint, StrokePoint) -> F32,
    epsilon: F32,
)
    requires
        points.len() <= usize::MAX,
        kept(points, d, epsilon).len() == points.len(),
    ensures
        simplified(points, d, epsilon) == points,
{
    lemma_all_kept_below(points, d, epsilon, points.len() as int);
    assert(simplified(points, d, epsilon) =~= points);
}

proof fn lemma_all_kept_below(
    points: Seq<StrokePoint>,
    d: spec_fn(StrokePoint, StrokePoint, StrokePoint) -> F32,
    epsilon: F32,
    n: int,
)
    requires
        0 <= n <= points.len() <= usize::MAX,
        kept_below(points, d, epsilon, n).len() == n,
    ensures
        forall|k: int| 0 <= k < n ==> #[trigger] kept_below(points, d, epsilon, n)[k] == k,
    decreases n,
{
    if n > 0 {
        lemma_kept_bound(points, d, epsilon, n - 1);
        lemma_all_kept_below(points, d, epsilon, n - 1);
    }
}

/// Two points or fewer are left as they are.
pub proof fn lemma_short(
    points: Seq<StrokePoint>,
    d: spec_fn(StrokePoint, StrokePoint, StrokePoint) -> F32,
    epsilon: F32,
)
    requires
        points.len() <= 2,
    ensures
        kept(points, d, epsilon).len() == points.len(),
{
    reveal_with_fuel(kept_below, 3);
}

/// The ranges still to be walked, newest last.
spec fn pending_keeps(
    points: Seq<StrokePoint>,
    d: spec_fn(StrokePoint, StrokePoint, StrokePoint) -> F32,
    epsilon: F32,
    stack: Seq<(usize, usize)>,
    i: int,
) -> bool {
    exists|t: int|
        0 <= t < stack.len() && keeps_between(
            points,
            d,
            epsilon,
            (#[trigger] stack[t]).0 as int,
            stack[t].1 as int,
            i,
        )
}

proof fn lemma_pending_push(
    points: Seq<StrokePoint>,
    d: spec_fn(StrokePoint, StrokePoint, StrokePoint) -> F32,
    epsilon: F32,
    stack: Seq<(usize, usize)>,
    r: (usize, usize),
    i: int,
)
    ensures
        pending_keeps(points, d, epsilon, stack.push(r), i) == (pending_keeps(points, d, epsilon, stack, i)
            || keeps_between(points, d, epsilon, r.0 as int, r.1 as int, i)),
{
    let more = stack.push(r);
    if pending_keeps(points, d, epsilon, stack, i) {
        let t = choose|t: int|
            0 <= t < stack.len() && keeps_between(
                points,
                d,
                epsilon,
                (#[trigger] stack[t]).0 as int,
                stack[t].1 as int,
                i,
            );
        assert(more[t] == stack[t]);
    }
    if keeps_between(points, d, epsilon, r.0 as int, r.1 as int, i) {
        assert(more[stack.len() as int] == r);
    }
    if pending_keeps(points, d, epsilon, more, i) {
        let t = choose|t: int|
            0 <= t < more.len() && keeps_between(
                points,
                d,
                epsilon,
                (#[trigger] more[t]).0 as int,
                more[t].1 as int,
                i,
            );
        if t < stack.len() {
            assert(more[t] == stack[t]);
        }
    }
}

/// A bound on the work that the ranges still to be walked may cost.
spec fn work(stack: Seq<(usize, usize)>) -> int
    decreases stack.len(),
{
    if stack.len() == 0 {
        0
    } else {
        work(stack.drop_last()) + 2 * (stack.last().1 - stack.last().0) - 1
    }
}

proof fn lemma_work_positive(stack: Seq<(usize, usize)>)
    requires
        forall|t: int| 0 <= t < stack.len() ==> (#[trigger] stack[t]).0 < stack[t].1,
    ensures
        work(stack) >= 0,
    decreases stack.len(),
{
    if stack.len() > 0 {
        assert forall|t: int| 0 <= t < stack.drop_last().len() implies (#[trigger] stack.drop_last()[t]).0
            < stack.drop_last()[t].1 by {
            assert(stack.drop_last()[t] == stack[t]);
        }
        lemma_work_positive(stack.drop_last());
        assert(stack[stack.len() - 1].0 < stack[stack.len() - 1].1);
    }
}

/// The point at which the range between `s` and `e` splits, if it does.
fn split_point<D: Fn(StrokePoint, StrokePoint, StrokePoint) -> F32>(
    points: &[StrokePoint],
    epsilon: F32,
    distance: &D,
    s: usize,
    e: usize,
) -> (split: Option<usize>)
    requires
        well_defined(*distance),
        s < e < points@.len(),
    ensures
        ({
            let (best, at) = farthest(points@, measure(*distance), s as int, e as int, e as int);
            if e > s + 1 && epsilon.below(best) {
                split is Some && split->0 == at
            } else {
                split is None
            }
        }),
{
    let ghost d = measure(*distance);
    let mut best: F32 = F32::zero();
    let mut at: usize = s;
    let mut k: usize = s + 1;
    while k < e
        invariant
            s < k <= e < points@.len(),
            d == measure(*distance),
            well_defined(*distance),
            (best, at as int) == farthest(points@, d, s as int, e as int, k as int),
        decreases e - k,
    {
        let here: F32 = distance(points[k], points[s], points[e]);
        proof {
            let r = d(points@[k as int], points@[s as int], points@[e as int]);
            assert(call_ensures(*distance, (points@[k as int], points@[s as int], points@[e as int]), r));
            assert(here == r);
        }
        if best.less(here) {
            best = here;
            at = k;
        }
        k += 1;
    }
    if e > s + 1 && epsilon.less(best) {
        Some(at)
    } else {
        None
    }
}

/// The state of the walk: what is flagged and what the ranges on the stack
/// still add is exactly what stays.
spec fn walked(
    points: Seq<StrokePoint>,
    d: spec_fn(StrokePoint, StrokePoint, StrokePoint) -> F32,
    epsilon: F32,
    flags: Seq<bool>,
    stack: Seq<(usize, usize)>,
) -> bool {
    &&& flags.len() == points.len()
    &&& forall|t: int|
        0 <= t < stack.len() ==> (#[trigger] stack[t]).0 < stack[t].1 < points.len() && halts_between(
            points,
            d,
            epsilon,
            stack[t].0 as int,
            stack[t].1 as int,
        )
    &&& forall|k: int|
        0 <= k < points.len() ==> #[trigger] keeps(points, d, epsilon, k) == (flags[k] || pending_keeps(
            points,
            d,
            epsilon,
            stack,
            k,
        ))
}

/// Taking the range between `s` and `e` off the stack, with its split.
proof fn lemma_step(
    points: Seq<StrokePoint>,
    d: spec_fn(StrokePoint, StrokePoint, StrokePoint) -> F32,
    epsilon: F32,
    flags: Seq<bool>,
    rest: Seq<(usize, usize)>,
    s: usize,
    e: usize,
)
    requires
        walked(points, d, epsilon, flags, rest.push((s, e))),
    ensures
        s < e < points.len(),
        ({
            let (best, at) = farthest(points, d, s as int, e as int, e as int);
            if e > s + 1 && epsilon.below(best) {
                let next = rest.push((s, at as usize)).push((at as usize, e));
                &&& s < at < e
                &&& walked(points, d, epsilon, flags.update(at, true), next)
                &&& 0 <= work(next) < work(rest.push((s, e)))
            } else {
                &&& walked(points, d, epsilon, flags, rest)
                &&& 0 <= work(rest) < work(rest.push((s, e)))
            }
        }),
{
    let before = rest.push((s, e));
    assert(before[rest.len() as int] == (s, e));
    assert(before.drop_last() =~= rest);
    assert forall|t: int| 0 <= t < rest.len() implies #[trigger] rest[t] == before[t] by {}
    lemma_work_positive(rest);
    let (best, at) = farthest(points, d, s as int, e as int, e as int);
    if e > s + 1 && epsilon.below(best) {
        assert(halts_between(points, d, epsilon, s as int, e as int));
        let mid = rest.push((s, at as usize));
        let next = mid.push((at as usize, e));
        let marked = flags.update(at, true);
        assert(next.drop_last() =~= mid);
        assert(mid.drop_last() =~= rest);
        assert forall|k: int| 0 <= k < points.len() implies #[trigger] keeps(points, d, epsilon, k) == (
        marked[k] || pending_keeps(points, d, epsilon, next, k)) by {
            assert(flags[k] || !flags[k]);
            lemma_pending_push(points, d, epsilon, rest, (s, e), k);
            lemma_pending_push(points, d, epsilon, rest, (s, at as usize), k);
            lemma_pending_push(points, d, epsilon, mid, (at as usize, e), k);
        }
        assert forall|t: int| 0 <= t < next.len() implies (#[trigger] next[t]).0 < next[t].1 < points.len()
            && halts_between(points, d, epsilon, next[t].0 as int, next[t].1 as int) by {
            if t < rest.len() {
                assert(next[t] == before[t]);
            }
        }
        lemma_work_positive(next);
        assert(work(before) == work(rest) + 2 * (e - s) - 1);
        assert(work(mid) == work(rest) + 2 * (at - s) - 1);
        assert(work(next) == work(mid) + 2 * (e - at) - 1);
        assert(walked(points, d, epsilon, marked, next));
    } else {
        assert forall|k: int| 0 <= k < points.len() implies #[trigger] keeps(points, d, epsilon, k) == (
        flags[k] || pending_keeps(points, d, epsilon, rest, k)) by {
            lemma_pending_push(points, d, epsilon, rest, (s, e), k);
        }
    }
}

/// The indices of the points to keep. The walk holds its ranges on a stack of
/// its own, so long strokes cost no call depth.
pub fn rdp_indices<D: Fn(StrokePoint, StrokePoint, StrokePoint) -> F32>(
    points: &[StrokePoint],
    epsilon: F32,
    distance: &D,
) -> (indices: Vec<usize>)
    requires
        well_defined(*distance),
        halts(points@, measure(*distance), epsilon),
    ensures
        indices@ == kept(points@, measure(*distance), epsilon),
{
    let ghost d = measure(*distance);
    let n: usize = points.len();
    let mut flags: Vec<bool> = Vec::new();
    let mut i: usize = 0;
    while i < n
        invariant
            i <= n,
            flags@.len() == i,
            forall|k: int| 0 <= k < i ==> #[trigger] flags@[k] == (n <= 2 || k == 0 || k == n - 1),
        decreases n - i,
    {
        flags.push(n <= 2 || i == 0 || i == n - 1);
        i += 1;
    }
    if n > 2 {
        let mut stack: Vec<(usize, usize)> = Vec::new();
        stack.push((0, n - 1));
        proof {
            assert(stack@ =~= Seq::<(usize, usize)>::empty().push((0, (n - 1) as usize)));
            assert forall|k: int| 0 <= k < n implies #[trigger] keeps(points@, d, epsilon, k) == (flags@[k]
                || pending_keeps(points@, d, epsilon, stack@, k)) by {
                lemma_pending_push(points@, d, epsilon, Seq::empty(), (0, (n - 1) as usize), k);
            }
        }
        while stack.len() > 0
            invariant
                n == points@.len(),
                d == measure(*distance),
                well_defined(*distance),
                walked(points@, d, epsilon, flags@, stack@),
            decreases work(stack@),
        {
            let ghost before = stack@;
            let (s, e): (usize, usize) = stack.pop().unwrap();
            proof {
                assert(before =~= stack@.push((s, e)));
                lemma_step(points@, d, epsilon, flags@, stack@, s, e);
            }
            match split_point(points, epsilon, distance, s, e) {
                Some(at) => {
                    flags.set(at, true);
                    stack.push((s, at));
                    stack.push((at, e));
                },
                None => {},
            }
        }
        proof {
            assert forall|k: int| 0 <= k < n implies #[trigger] flags@[k] == keeps(points@, d, epsilon, k) by {}
        }
    }
    let mut indices: Vec<usize> = Vec::new();
    let mut j: usize = 0;
    while j < n
        invariant
            j <= n,
            n == points@.len(),
            flags@.len() == n,
            forall|k: int| 0 <= k < n ==> #[trigger] flags@[k] == keeps(points@, d, epsilon, k),
            indices@ == kept_below(points@, d, epsilon, j as int),
        decreases n - j,
    {
        if flags[j] {
            indices.push(j);
        }
        j += 1;
    }
    indices
}

/// What stays is a selection of the points in their order, and both ends are
/// among it.
pub proof fn law_ends_and_order_are_kept(
    points: Seq<StrokePoint>,
    d: spec_fn(StrokePoint, StrokePoint, StrokePoint) -> F32,
    epsilon: F32,
)
    requires
        0 < points.len() <= usize::MAX,
    ensures
        0 < simplified(points, d, epsilon).len() <= points.len(),
        simplified(points, d, epsilon).first() == points.first(),
        simplified(points, d, epsilon).last() == points.last(),
        forall|i: int, j: int|
            0 <= i < j < kept(points, d, epsilon).len() ==> (#[trigger] kept(points, d, epsilon)[i]) < (
            #[trigger] kept(points, d, epsilon)[j]),
{
    lemma_kept_bound(points, d, epsilon, points.len() as int);
    lemma_kept_order(points, d, epsilon, points.len() as int);
}

proof fn lemma_kept_order(
    points: Seq<StrokePoint>,
    d: spec_fn(StrokePoint, StrokePoint, StrokePoint) -> F32,
    epsilon: F32,
    n: int,
)
    requires
        0 < n <= points.len() <= usize::MAX,
    ensures
        kept_below(points, d, epsilon, n).len() > 0,
        kept_below(points, d, epsilon, n)[0] == 0,
        n == points.len() ==> kept_below(points, d, epsilon, n).last() == n - 1,
        forall|i: int, j: int|
            0 <= i < j < kept_below(points, d, epsilon, n).len() ==> (#[trigger] kept_below(points, d, epsilon, n)[i])
                < (#[trigger] kept_below(points, d, epsilon, n)[j]),
    decreases n,
{
    if n > 1 {
        lemma_kept_order(points, d, epsilon, n - 1);
        lemma_kept_bound(points, d, epsilon, n - 1);
    } else {
        reveal_with_fuel(kept_below, 2);
    }
}

/// The farthest point is at least as far as any.
proof fn lemma_farthest_is_far(
    points: Seq<StrokePoint>,
    d: spec_fn(StrokePoint, StrokePoint, StrokePoint) -> F32,
    s: int,
    e: int,
    k: int,
    i: int,
)
    requires
        s < i < k,
    ensures
        !farthest(points, d, s, e, k).0.nan(),
        !farthest(points, d, s, e, k).0.below(d(points[i], points[s], points[e])),
    decreases k - s,
{
    if i < k - 1 {
        lemma_farthest_is_far(points, d, s, e, k - 1, i);
    } else if k > s + 2 {
        lemma_farthest_is_far(points, d, s, e, k - 1, s + 1);
    } else {
        reveal_with_fuel(farthest, 2);
    }
}

/// The walk keeps only points strictly between its ends.
proof fn lemma_keeps_inside(
    points: Seq<StrokePoint>,
    d: spec_fn(StrokePoint, StrokePoint, StrokePoint) -> F32,
    epsilon: F32,
    s: int,
    e: int,
    i: int,
)
    requires
        keeps_between(points, d, epsilon, s, e, i),
    ensures
        s < i < e,
    decreases e - s,
{
    let (best, at) = farthest(points, d, s, e, e);
    if keeps_between(points, d, epsilon, s, at, i) {
        lemma_keeps_inside(points, d, epsilon, s, at, i);
    }
    if keeps_between(points, d, epsilon, at, e, i) {
        lemma_keeps_inside(points, d, epsilon, at, e, i);
    }
}

/// Whether `a` and `b` are ends of the range or stay, no point between them
/// does, and `i` lies between them and no farther than the tolerance from the
/// segment that joins them.
pub open spec fn near_segment(
    points: Seq<StrokePoint>,
    d: spec_fn(StrokePoint, StrokePoint, StrokePoint) -> F32,
    epsilon: F32,
    s: int,
    e: int,
    i: int,
    a: int,
    b: int,
) -> bool {
    &&& s <= a < i < b <= e
    &&& a == s || keeps_between(points, d, epsilon, s, e, a)
    &&& b == e || keeps_between(points, d, epsilon, s, e, b)
    &&& forall|j: int| a < j < b ==> !#[trigger] keeps_between(points, d, epsilon, s, e, j)
    &&& !epsilon.below(d(points[i], points[a], points[b]))
}

proof fn lemma_dropped_is_near(
    points: Seq<StrokePoint>,
    d: spec_fn(StrokePoint, StrokePoint, StrokePoint) -> F32,
    epsilon: F32,
    s: int,
    e: int,
    i: int,
) -> (ends: (int, int))
    requires
        s < i < e,
        !keeps_between(points, d, epsilon, s, e, i),
        halts_between(points, d, epsilon, s, e),
    ensures
        near_segment(points, d, epsilon, s, e, i, ends.0, ends.1),
    decreases e - s,
{
    let (best, at) = farthest(points, d, s, e, e);
    lemma_farthest_is_far(points, d, s, e, e, i);
    if !epsilon.below(best) {
        (s, e)
    } else if i < at {
        let ends = lemma_dropped_is_near(points, d, epsilon, s, at, i);
        assert forall|j: int| ends.0 < j < ends.1 implies !#[trigger] keeps_between(points, d, epsilon, s, e, j) by {
            assert(!keeps_between(points, d, epsilon, s, at, j));
            if keeps_between(points, d, epsilon, at, e, j) {
                lemma_keeps_inside(points, d, epsilon, at, e, j);
            }
        }
        ends
    } else {
        let ends = lemma_dropped_is_near(points, d, epsilon, at, e, i);
        assert forall|j: int| ends.0 < j < ends.1 implies !#[trigger] keeps_between(points, d, epsilon, s, e, j) by {
            assert(!keeps_between(points, d, epsilon, at, e, j));
            if keeps_between(points, d, epsilon, s, at, j) {
                lemma_keeps_inside(points, d, epsilon, s, at, j);
            }
        }
        ends
    }
}

/// A point is dropped only where the next points that stay, one before and one
/// after it, are joined by a segment that it is no farther from than the
/// tolerance.
pub proof fn law_dropped_points_are_near(
    points: Seq<StrokePoint>,
    d: spec_fn(StrokePoint, StrokePoint, StrokePoint) -> F32,
    epsilon: F32,
    i: int,
)
    requires
        halts(points, d, epsilon),
        0 <= i < points.len(),
        !keeps(points, d, epsilon, i),
    ensures
        exists|a: int, b: int|
            {
                &&& 0 <= a < i < b < points.len()
                &&& #[trigger] keeps(points, d, epsilon, a)
                &&& #[trigger] keeps(points, d, epsilon, b)
                &&& forall|j: int| a < j < b ==> !#[trigger] keeps(points, d, epsilon, j)
                &&& !epsilon.below(d(points[i], points[a], points[b]))
            },
{
    let (a, b) = lemma_dropped_is_near(points, d, epsilon, 0, points.len() - 1, i);
    assert(keeps(points, d, epsilon, a));
    assert(keeps(points, d, epsilon, b));
    assert forall|j: int| a < j < b implies !#[trigger] keeps(points, d, epsilon, j) by {
        assert(!keeps_between(points, d, epsilon, 0, points.len() - 1, j));
    }
}

/// The farthest point of a range is the same within a part of the path.
proof fn lemma_farthest_within(
    points: Seq<StrokePoint>,
    d: spec_fn(StrokePoint, StrokePoint, StrokePoint) -> F32,
    lo: int,
    hi: int,
    s: int,
    e: int,
    k: int,
)
    requires
        0 <= lo <= s < e < hi <= points.len(),
        k <= e,
    ensures
        ({
            let (best, at) = farthest(points, d, s, e, k);
            farthest(points.subrange(lo, hi), d, s - lo, e - lo, k - lo) == (best, at - lo)
        }),
    decreases k - s,
{
    if k > s + 1 {
        lemma_farthest_within(points, d, lo, hi, s, e, k - 1);
    }
}

/// What the walk keeps of a range is the same within a part of the path.
proof fn lemma_keeps_within(
    points: Seq<StrokePoint>,
    d: spec_fn(StrokePoint, StrokePoint, StrokePoint) -> F32,
    epsilon: F32,
    lo: int,
    hi: int,
    s: int,
    e: int,
    i: int,
)
    requires
        0 <= lo <= s < e < hi <= points.len(),
    ensures
        keeps_between(points.subrange(lo, hi), d, epsilon, s - lo, e - lo, i - lo) == keeps_between(
            points,
            d,
            epsilon,
            s,
            e,
            i,
        ),
    decreases e - s,
{
    let (best, at) = farthest(points, d, s, e, e);
    lemma_farthest_within(points, d, lo, hi, s, e, e);
    if e > s + 1 && epsilon.below(best) && s < at < e {
        lemma_keeps_within(points, d, epsilon, lo, hi, s, at, i);
        lemma_keeps_within(points, d, epsilon, lo, hi, at, e, i);
    }
}

/// Where the path is split, a point of the first part stays if it stays in that
/// part, and a point of the second part if it stays in that one.
proof fn lemma_keeps_parts(
    points: Seq<StrokePoint>,
    d: spec_fn(StrokePoint, StrokePoint, StrokePoint) -> F32,
    epsilon: F32,
    at: int,
    i: int,
)
    requires
        points.len() > 2,
        0 < at < points.len() - 1,
        ({
            let (best, split) = farthest(points, d, 0, points.len() - 1, points.len() - 1);
            epsilon.below(best) && split == at
        }),
        0 <= i < points.len(),
    ensures
        i <= at ==> keeps(points, d, epsilon, i) == keeps(points.take(at + 1), d, epsilon, i),
        i >= at ==> keeps(points, d, epsilon, i) == keeps(points.skip(at), d, epsilon, i - at),
{
    let n = points.len() as int;
    assert(points.take(at + 1) =~= points.subrange(0, at + 1));
    assert(points.skip(at) =~= points.subrange(at, n));
    lemma_keeps_within(points, d, epsilon, 0, at + 1, 0, at, i);
    lemma_keeps_within(points, d, epsilon, at, n, at, n - 1, i);
    if keeps_between(points, d, epsilon, 0, at, i) {
        lemma_keeps_inside(points, d, epsilon, 0, at, i);
    }
    if keeps_between(points, d, epsilon, at, n - 1, i) {
        lemma_keeps_inside(points, d, epsilon, at, n - 1, i);
    }
}

/// The points that stay of the first `n`.
spec fn simplified_below(
    points: Seq<StrokePoint>,
    d: spec_fn(StrokePoint, StrokePoint, StrokePoint) -> F32,
    epsilon: F32,
    n: int,
) -> Seq<StrokePoint>
    decreases n,
{
    if n <= 0 {
        seq![]
    } else if keeps(points, d, epsilon, n - 1) {
        simplified_below(points, d, epsilon, n - 1).push(points[n - 1])
    } else {
        simplified_below(points, d, epsilon, n - 1)
    }
}

proof fn lemma_simplified_below(
    points: Seq<StrokePoint>,
    d: spec_fn(StrokePoint, StrokePoint, StrokePoint) -> F32,
    epsilon: F32,
    n: int,
)
    requires
        0 <= n <= points.len() <= usize::MAX,
    ensures
        simplified_below(points, d, epsilon, n) == Seq::new(
            kept_below(points, d, epsilon, n).len(),
            |k: int| points[kept_below(points, d, epsilon, n)[k] as int],
        ),
    decreases n,
{
    if n > 0 {
        lemma_simplified_below(points, d, epsilon, n - 1);
    }
    assert(simplified_below(points, d, epsilon, n) =~= Seq::new(
        kept_below(points, d, epsilon, n).len(),
        |k: int| points[kept_below(points, d, epsilon, n)[k] as int],
    ));
}

proof fn lemma_first_part(
    points: Seq<StrokePoint>,
    d: spec_fn(StrokePoint, StrokePoint, StrokePoint) -> F32,
    epsilon: F32,
    at: int,
    n: int,
)
    requires
        points.len() > 2,
        0 < at < points.len() - 1,
        ({
            let (best, split) = farthest(points, d, 0, points.len() - 1, points.len() - 1);
            epsilon.below(best) && split == at
        }),
        0 <= n <= at + 1,
    ensures
        simplified_below(points, d, epsilon, n) == simplified_below(points.take(at + 1), d, epsilon, n),
    decreases n,
{
    if n > 0 {
        lemma_first_part(points, d, epsilon, at, n - 1);
        lemma_keeps_parts(points, d, epsilon, at, n - 1);
    }
}

proof fn lemma_second_part(
    points: Seq<StrokePoint>,
    d: spec_fn(StrokePoint, StrokePoint, StrokePoint) -> F32,
    epsilon: F32,
    at: int,
    n: int,
)
    requires
        points.len() > 2,
        0 < at < points.len() - 1,
        ({
            let (best, split) = farthest(points, d, 0, points.len() - 1, points.len() - 1);
            epsilon.below(best) && split == at
        }),
        at < n <= points.len(),
    ensures
        simplified_below(points.skip(at), d, epsilon, n - at).len() > 0,
        simplified_below(points, d, epsilon, n) == simplified_below(points, d, epsilon, at + 1) + simplified_below(
            points.skip(at),
            d,
            epsilon,
            n - at,
        ).drop_first(),
    decreases n,
{
    let part = points.skip(at);
    lemma_keeps_parts(points, d, epsilon, at, n - 1);
    if n == at + 1 {
        reveal_with_fuel(simplified_below, 2);
        assert(keeps(part, d, epsilon, 0));
        assert(simplified_below(part, d, epsilon, 0) =~= seq![]);
        assert(simplified_below(part, d, epsilon, 1) =~= seq![part[0]]);
        assert(simplified_below(points, d, epsilon, n) =~= simplified_below(points, d, epsilon, at + 1)
            + simplified_below(part, d, epsilon, 1).drop_first());
    } else {
        lemma_second_part(points, d, epsilon, at, n - 1);
        assert(part[n - 1 - at] == points[n - 1]);
        assert(simplified_below(points, d, epsilon, n) =~= simplified_below(points, d, epsilon, at + 1)
            + simplified_below(part, d, epsilon, n - at).drop_first());
    }
}

/// The distance of the farthest point is the distance of that point, and none
/// before it is as far.
proof fn lemma_farthest_is_first(
    points: Seq<StrokePoint>,
    d: spec_fn(StrokePoint, StrokePoint, StrokePoint) -> F32,
    s: int,
    e: int,
    k: int,
)
    requires
        s < k,
    ensures
        ({
            let (best, at) = farthest(points, d, s, e, k);
            &&& !best.nan()
            &&& s < at ==> best == d(points[at], points[s], points[e]) && F32::zero().below(best)
            &&& forall|i: int|
                s < i < at ==> d(#[trigger] points[i], points[s], points[e]).nan() || d(
                    points[i],
                    points[s],
                    points[e],
                ).below(best)
        }),
    decreases k - s,
{
    if k > s + 1 {
        lemma_farthest_is_first(points, d, s, e, k - 1);
        lemma_farthest(points, d, s, e, k - 1);
        let (best, at) = farthest(points, d, s, e, k - 1);
        let here = d(points[k - 1], points[s], points[e]);
        if best.below(here) {
            assert forall|i: int| s < i < k - 1 implies d(#[trigger] points[i], points[s], points[e]).nan() || d(
                points[i],
                points[s],
                points[e],
            ).below(here) by {
                lemma_farthest_is_far(points, d, s, e, k - 1, i);
            }
        }
    }
}

/// What simplification is: where no point between the ends is farther from the
/// segment that joins them than the tolerance, the ends are all that stays.
/// Otherwise the path is split at the first of the points that are farthest
/// from that segment, and what stays is what stays of the two parts, each
/// simplified by itself.
pub proof fn law_paths_are_split_at_the_farthest_point(
    points: Seq<StrokePoint>,
    d: spec_fn(StrokePoint, StrokePoint, StrokePoint) -> F32,
    epsilon: F32,
) -> (split: Option<int>)
    requires
        2 < points.len() <= usize::MAX,
        halts(points, d, epsilon),
    ensures
        ({
            let n = points.len() - 1;
            match split {
                None => {
                    &&& forall|i: int| 0 < i < n ==> !epsilon.below(d(#[trigger] points[i], points[0], points[n]))
                    &&& simplified(points, d, epsilon) == seq![points[0], points[n]]
                },
                Some(at) => {
                    let most = d(points[at], points[0], points[n]);
                    &&& 0 < at < n
                    &&& epsilon.below(most)
                    &&& forall|i: int| 0 < i < n ==> !most.below(d(#[trigger] points[i], points[0], points[n]))
                    &&& forall|i: int|
                        0 < i < at ==> d(#[trigger] points[i], points[0], points[n]).nan() || d(
                            points[i],
                            points[0],
                            points[n],
                        ).below(most)
                    &&& simplified(points, d, epsilon) == simplified(points.take(at + 1), d, epsilon) + simplified(
                        points.skip(at),
                        d,
                        epsilon,
                    ).drop_first()
                },
            }
        }),
{
    let n = points.len() - 1;
    let (best, at) = farthest(points, d, 0, n, n);
    lemma_farthest(points, d, 0, n, n);
    lemma_farthest_is_first(points, d, 0, n, n);
    assert forall|i: int| 0 < i < n implies !best.below(d(#[trigger] points[i], points[0], points[n])) by {
        lemma_farthest_is_far(points, d, 0, n, n, i);
    }
    lemma_simplified_below(points, d, epsilon, points.len() as int);
    if epsilon.below(best) {
        assert(0 < at < n);
        lemma_simplified_below(points.take(at + 1), d, epsilon, at + 1);
        lemma_simplified_below(points.skip(at), d, epsilon, points.len() - at);
        lemma_first_part(points, d, epsilon, at, at + 1);
        lemma_second_part(points, d, epsilon, at, points.len() as int);
        Some(at)
    } else {
        lemma_only_ends(points, d, epsilon, n);
        assert(simplified(points, d, epsilon) =~= seq![points[0], points[n]]);
        None
    }
}

proof fn lemma_only_ends(
    points: Seq<StrokePoint>,
    d: spec_fn(StrokePoint, StrokePoint, StrokePoint) -> F32,
    epsilon: F32,
    n: int,
)
    requires
        points.len() > 2,
        !epsilon.below(farthest(points, d, 0, points.len() - 1, points.len() - 1).0),
        0 < n < points.len(),
    ensures
        simplified_below(points, d, epsilon, n) == seq![points[0]],
    decreases n,
{
    if n == 1 {
        reveal_with_fuel(simplified_below, 2);
        assert(simplified_below(points, d, epsilon, n) =~= seq![points[0]]);
    } else {
        lemma_only_ends(points, d, epsilon, n - 1);
    }
}

/// A path of two points or fewer is not changed by simplification.
pub proof fn law_short_paths_stay(
    points: Seq<StrokePoint>,
    d: spec_fn(StrokePoint, StrokePoint, StrokePoint) -> F32,
    epsilon: F32,
)
    requires
        points.len() <= 2,
    ensures
        simplified(points, d, epsilon) == points,
{
    lemma_short(points, d, epsilon);
    lemma_all_kept(points, d, epsilon);
}

/// A stroke path that is simplified has the points that stay, its tool, and the
/// box around the points that stay, if any point goes. It is what it was, if
/// none does.
pub proof fn law_simplified_strokes_keep_their_tool(
    data: StrokeDataView,
    d: spec_fn(StrokePoint, StrokePoint, StrokePoint) -> F32,
    epsilon: F32,
)
    requires
        data.points.len() <= usize::MAX,
    ensures
        ({
            let now = simplified_data(data, d, epsilon);
            &&& now.points == simplified(data.points, d, epsilon)
            &&& now.tool == data.tool
            &&& now.points.len() == data.points.len() ==> now == data
            &&& now.points.len() != data.points.len() ==> now.bounds == stroke::bounds_of(now.points)
        }),
{
    lemma_kept_bound(data.points, d, epsilon, data.points.len() as int);
    if kept(data.points, d, epsilon).len() == data.points.len() {
        lemma_all_kept(data.points, d, epsilon);
    }
}

/// The points that stay are points of the path, in their order.
pub proof fn law_simplified_points_are_selected(
    points: Seq<StrokePoint>,
    d: spec_fn(StrokePoint, StrokePoint, StrokePoint) -> F32,
    epsilon: F32,
) -> (from: Seq<int>)
    requires
        points.len() <= usize::MAX,
    ensures
        from.len() == simplified(points, d, epsilon).len(),
        forall|k: int| 0 <= k < from.len() ==> 0 <= #[trigger] from[k] < points.len(),
        forall|k: int, l: int| 0 <= k < l < from.len() ==> #[trigger] from[k] < #[trigger] from[l],
        forall|k: int| 0 <= k < from.len() ==> (#[trigger] simplified(points, d, epsilon)[k]) == points[from[k]],
{
    let all = kept(points, d, epsilon);
    lemma_kept_bound(points, d, epsilon, points.len() as int);
    if points.len() > 0 {
        lemma_kept_order(points, d, epsilon, points.len() as int);
    }
    all.map_values(|i: usize| i as int)
}

} // verus!
