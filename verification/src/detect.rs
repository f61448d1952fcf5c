use vstd::prelude::*;

use crate::geometry::Rect;

verus! {

/// A candidate square must have an area strictly greater than this.
pub const MIN_AREA: i64 = 20;

/// A candidate square must have an area strictly smaller than this.
pub const MAX_AREA: i64 = 1000;

/// A candidate square's width-to-height ratio must lie strictly between
/// `1 - 1 / MAX_RATIO_DENOMINATOR` and `1 + 1 / MAX_RATIO_DENOMINATOR`.
pub const MAX_RATIO_DENOMINATOR: i64 = 20;

/// Two squares are adjacent only if their top-left corners are at most this
/// far apart in Manhattan distance.
pub const ADJACENT_DIST: i64 = 200;

/// Two squares are adjacent only if their areas differ by at most this much.
pub const ADJACENT_AREA_DIFF: i128 = 200;

pub open spec fn abs(v: int) -> int {
    if v < 0 {
        -v
    } else {
        v
    }
}

/// `width / height` lies strictly within `1 ± 1 / MAX_RATIO_DENOMINATOR`,
/// written without division (a zero height never qualifies).
pub open spec fn ratio_is_square(width: int, height: int) -> bool {
    let d = MAX_RATIO_DENOMINATOR as int;
    ||| (height > 0 && (d - 1) * height < d * width && d * width < (d + 1) * height)
    ||| (height < 0 && (d + 1) * height < d * width && d * width < (d - 1) * height)
}

/// A bounding box that may be one square of the checkerboard.
pub open spec fn is_square_candidate(r: Rect) -> bool {
    &&& MIN_AREA < r.spec_area()
    &&& r.spec_area() < MAX_AREA
    &&& ratio_is_square(r.width as int, r.height as int)
}

/// The candidates among the first `n` boxes, in their order.
pub open spec fn squares_prefix(s: Seq<Rect>, n: nat) -> Seq<Rect>
    decreases n,
{
    if n == 0 {
        Seq::empty()
    } else if is_square_candidate(s[n - 1]) {
        squares_prefix(s, (n - 1) as nat).push(s[n - 1])
    } else {
        squares_prefix(s, (n - 1) as nat)
    }
}

/// The candidate squares among `s`, in their order.
pub open spec fn squares(s: Seq<Rect>) -> Seq<Rect> {
    squares_prefix(s, s.len())
}

/// Manhattan distance between the top-left corners.
pub open spec fn corner_distance(a: Rect, b: Rect) -> int {
    abs(a.x - b.x) + abs(a.y - b.y)
}

/// Two boxes are close: corners near each other and areas alike.
pub open spec fn close(a: Rect, b: Rect) -> bool {
    &&& corner_distance(a, b) <= ADJACENT_DIST
    &&& abs(a.spec_area() - b.spec_area()) <= ADJACENT_AREA_DIFF
}

/// `c` is close to every box of `group`.
pub open spec fn close_to_all(group: Seq<Rect>, c: Rect) -> bool {
    forall|i: int| 0 <= i < group.len() ==> close(#[trigger] group[i], c)
}

/// The group grown greedily over the first `n` boxes: it starts with `s[0]`,
/// and each later box joins when it is close to every box already in it.
pub open spec fn cluster_prefix(s: Seq<Rect>, n: nat) -> Seq<Rect>
    decreases n,
{
    if n <= 1 {
        seq![s[0]]
    } else {
        let c = cluster_prefix(s, (n - 1) as nat);
        if close_to_all(c, s[n - 1]) {
            c.push(s[n - 1])
        } else {
            c
        }
    }
}

/// The group grown greedily over all of `s`.
pub open spec fn cluster(s: Seq<Rect>) -> Seq<Rect> {
    cluster_prefix(s, s.len())
}

pub open spec fn coord(r: Rect, vertical: bool) -> int {
    if vertical {
        r.y as int
    } else {
        r.x as int
    }
}

/// The least corner coordinate among the first `n` boxes (`n >= 1`).
pub open spec fn least_prefix(c: Seq<Rect>, n: nat, vertical: bool) -> int
    decreases n,
{
    if n <= 1 {
        coord(c[0], vertical)
    } else {
        let m = least_prefix(c, (n - 1) as nat, vertical);
        let v = coord(c[n - 1], vertical);
        if v < m {
            v
        } else {
            m
        }
    }
}

/// The greatest corner coordinate among the first `n` boxes (`n >= 1`).
pub open spec fn greatest_prefix(c: Seq<Rect>, n: nat, vertical: bool) -> int
    decreases n,
{
    if n <= 1 {
        coord(c[0], vertical)
    } else {
        let m = greatest_prefix(c, (n - 1) as nat, vertical);
        let v = coord(c[n - 1], vertical);
        if v > m {
            v
        } else {
            m
        }
    }
}

pub open spec fn least(c: Seq<Rect>, vertical: bool) -> int {
    least_prefix(c, c.len(), vertical)
}

pub open spec fn greatest(c: Seq<Rect>, vertical: bool) -> int {
    greatest_prefix(c, c.len(), vertical)
}

/// The extents of the box around the cluster of `s` fit in an `i32`.
pub open spec fn adjacent_box_fits(s: Seq<Rect>) -> bool {
    let c = cluster(s);
    &&& greatest(c, false) - least(c, false) <= i32::MAX
    &&& greatest(c, true) - least(c, true) <= i32::MAX
}

/// The box spanned by the top-left corners of the cluster of `s`, from the
/// least corner coordinates to the greatest ones.
pub open spec fn adjacent_box(s: Seq<Rect>) -> Rect {
    let c = cluster(s);
    Rect {
        x: least(c, false) as i32,
        y: least(c, true) as i32,
        width: (greatest(c, false) - least(c, false)) as i32,
        height: (greatest(c, true) - least(c, true)) as i32,
    }
}

/// What the checkerboard detection yields for the given bounding boxes.
pub open spec fn checkerboard_of(boxes: Seq<Rect>) -> Option<Rect> {
    if squares(boxes).len() < 2 {
        None
    } else {
        Some(adjacent_box(squares(boxes)))
    }
}

proof fn lemma_least_greatest_bounds(c: Seq<Rect>, n: nat, vertical: bool)
    requires
        1 <= n <= c.len(),
    ensures
        i32::MIN <= least_prefix(c, n, vertical) <= i32::MAX,
        i32::MIN <= greatest_prefix(c, n, vertical) <= i32::MAX,
        least_prefix(c, n, vertical) <= greatest_prefix(c, n, vertical),
        forall|i: int|
            0 <= i < n ==> least_prefix(c, n, vertical) <= #[trigger] coord(c[i], vertical)
                <= greatest_prefix(c, n, vertical),
    decreases n,
{
    if n > 1 {
        lemma_least_greatest_bounds(c, (n - 1) as nat, vertical);
    }
}

proof fn lemma_nonnegative_extent(c: Seq<Rect>, vertical: bool)
    requires
        c.len() >= 1,
        forall|i: int| 0 <= i < c.len() ==> coord(#[trigger] c[i], vertical) >= 0,
    ensures
        least(c, vertical) >= 0,
{
    lemma_least_greatest_bounds(c, c.len(), vertical);
    lemma_least_is_member(c, c.len(), vertical);
}

proof fn lemma_least_is_member(c: Seq<Rect>, n: nat, vertical: bool)
    requires
        1 <= n <= c.len(),
    ensures
        exists|i: int| 0 <= i < n && least_prefix(c, n, vertical) == coord(#[trigger] c[i], vertical),
    decreases n,
{
    if n > 1 {
        lemma_least_is_member(c, (n - 1) as nat, vertical);
        let m = least_prefix(c, (n - 1) as nat, vertical);
        let i = choose|i: int| 0 <= i < n - 1 && m == coord(#[trigger] c[i], vertical);
        assert(coord(c[i], vertical) == m);
    } else {
        assert(coord(c[0], vertical) == least_prefix(c, n, vertical));
    }
}

proof fn lemma_greatest_is_member(c: Seq<Rect>, n: nat, vertical: bool)
    requires
        1 <= n <= c.len(),
    ensures
        exists|i: int|
            0 <= i < n && greatest_prefix(c, n, vertical) == coord(#[trigger] c[i], vertical),
    decreases n,
{
    if n > 1 {
        lemma_greatest_is_member(c, (n - 1) as nat, vertical);
        let m = greatest_prefix(c, (n - 1) as nat, vertical);
        let i = choose|i: int| 0 <= i < n - 1 && m == coord(#[trigger] c[i], vertical);
        assert(coord(c[i], vertical) == m);
    } else {
        assert(coord(c[0], vertical) == greatest_prefix(c, n, vertical));
    }
}

proof fn lemma_cluster_members(s: Seq<Rect>, n: nat)
    requires
        1 <= n <= s.len(),
    ensures
        cluster_prefix(s, n).len() >= 1,
        cluster_prefix(s, n)[0] == s[0],
        forall|i: int|
            0 <= i < cluster_prefix(s, n).len() ==> exists|j: int|
                0 <= j < n && #[trigger] cluster_prefix(s, n)[i] == s[j],
    decreases n,
{
    if n > 1 {
        lemma_cluster_members(s, (n - 1) as nat);
        let c = cluster_prefix(s, (n - 1) as nat);
        let d = cluster_prefix(s, n);
        assert forall|i: int| 0 <= i < d.len() implies exists|j: int|
            0 <= j < n && #[trigger] d[i] == s[j] by {
            if i < c.len() {
                assert(d[i] == c[i]);
                let j = choose|j: int| 0 <= j < n - 1 && c[i] == s[j];
                assert(d[i] == s[j]);
            } else {
                assert(d[i] == s[n - 1]);
            }
        }
    } else {
        assert(cluster_prefix(s, n)[0] == s[0]);
    }
}

/// Within the cluster, every pair of boxes is close (the greedy growth keeps
/// this for every prefix).
proof fn lemma_cluster_prefix_pairwise_close(s: Seq<Rect>, n: nat)
    requires
        1 <= n <= s.len(),
    ensures
        forall|i: int, j: int|
            0 <= i < j < cluster_prefix(s, n).len() ==> close(
                #[trigger] cluster_prefix(s, n)[i],
                #[trigger] cluster_prefix(s, n)[j],
            ),
    decreases n,
{
    if n > 1 {
        lemma_cluster_prefix_pairwise_close(s, (n - 1) as nat);
        let c = cluster_prefix(s, (n - 1) as nat);
        let d = cluster_prefix(s, n);
        assert forall|i: int, j: int| 0 <= i < j < d.len() implies close(
            #[trigger] d[i],
            #[trigger] d[j],
        ) by {
            if j < c.len() {
                assert(d[i] == c[i] && d[j] == c[j]);
            } else {
                assert(d[j] == s[n - 1]);
                assert(d[i] == c[i]);
                assert(close(c[i], s[n - 1]));
            }
        }
    }
}

/// Closeness does not depend on the order of the two boxes.
pub proof fn lemma_close_symmetric(a: Rect, b: Rect)
    ensures
        close(a, b) == close(b, a),
{
}

/// Every two boxes of the cluster are close to each other.
pub proof fn lemma_cluster_pairwise_close(s: Seq<Rect>)
    requires
        s.len() >= 1,
    ensures
        forall|i: int, j: int|
            0 <= i < cluster(s).len() && 0 <= j < cluster(s).len() && i != j ==> close(
                #[trigger] cluster(s)[i],
                #[trigger] cluster(s)[j],
            ),
{
    lemma_cluster_prefix_pairwise_close(s, s.len());
    let c = cluster(s);
    assert forall|i: int, j: int|
        0 <= i < c.len() && 0 <= j < c.len() && i != j implies close(
        #[trigger] c[i],
        #[trigger] c[j],
    ) by {
        if j < i {
            lemma_close_symmetric(c[j], c[i]);
        }
    }
}

/// The cluster starts with the first box and holds only boxes of `s`.
pub proof fn lemma_cluster_from_input(s: Seq<Rect>)
    requires
        s.len() >= 1,
    ensures
        cluster(s).len() >= 1,
        cluster(s)[0] == s[0],
        forall|i: int|
            0 <= i < cluster(s).len() ==> exists|j: int|
                0 <= j < s.len() && #[trigger] cluster(s)[i] == s[j],
{
    lemma_cluster_members(s, s.len());
}

/// The adjacent box is the smallest box around the top-left corners of the
/// cluster: every corner lies in it (edges included), and each of its four
/// edges passes through some corner.
pub proof fn lemma_adjacent_box_covers_cluster(s: Seq<Rect>)
    requires
        s.len() >= 1,
        adjacent_box_fits(s),
    ensures
        forall|i: int|
            0 <= i < cluster(s).len() ==> {
                let b = adjacent_box(s);
                let r = #[trigger] cluster(s)[i];
                &&& b.x <= r.x <= b.x + b.width
                &&& b.y <= r.y <= b.y + b.height
            },
        adjacent_box(s).width >= 0,
        adjacent_box(s).height >= 0,
        exists|i: int| 0 <= i < cluster(s).len() && #[trigger] cluster(s)[i].x == adjacent_box(s).x,
        exists|i: int|
            0 <= i < cluster(s).len() && #[trigger] cluster(s)[i].x == adjacent_box(s).x
                + adjacent_box(s).width,
        exists|i: int| 0 <= i < cluster(s).len() && #[trigger] cluster(s)[i].y == adjacent_box(s).y,
        exists|i: int|
            0 <= i < cluster(s).len() && #[trigger] cluster(s)[i].y == adjacent_box(s).y
                + adjacent_box(s).height,
{
    lemma_cluster_members(s, s.len());
    let c = cluster(s);
    lemma_least_greatest_bounds(c, c.len(), false);
    lemma_least_greatest_bounds(c, c.len(), true);
    lemma_least_is_member(c, c.len(), false);
    lemma_least_is_member(c, c.len(), true);
    lemma_greatest_is_member(c, c.len(), false);
    lemma_greatest_is_member(c, c.len(), true);
    assert forall|i: int| 0 <= i < c.len() implies {
        let b = adjacent_box(s);
        let r = #[trigger] c[i];
        &&& b.x <= r.x <= b.x + b.width
        &&& b.y <= r.y <= b.y + b.height
    } by {
        assert(least(c, false) <= coord(c[i], false) <= greatest(c, false));
        assert(least(c, true) <= coord(c[i], true) <= greatest(c, true));
    }
}

/// Two boxes are close exactly when their top-left corners are at most 200
/// apart in Manhattan distance (each coordinate difference taken on its own,
/// in either direction) and their areas differ by at most 200.
pub proof fn lemma_close_is_manhattan_and_area(a: Rect, b: Rect)
    ensures
        close(a, b) <==> {
            let dx = a.x - b.x;
            let dy = a.y - b.y;
            let da = a.width * a.height - b.width * b.height;
            &&& dx + dy <= 200
            &&& dx - dy <= 200
            &&& -dx + dy <= 200
            &&& -dx - dy <= 200
            &&& -200 <= da <= 200
        },
{
}

/// A box is close to a group exactly when it is close, by corner distance and
/// area, to each member of the group.
pub proof fn lemma_close_to_all_members(group: Seq<Rect>, c: Rect)
    ensures
        close_to_all(group, c) <==> forall|i: int|
            0 <= i < group.len() ==> {
                let g = #[trigger] group[i];
                let dx = g.x - c.x;
                let dy = g.y - c.y;
                let da = g.width * g.height - c.width * c.height;
                &&& dx + dy <= 200
                &&& dx - dy <= 200
                &&& -dx + dy <= 200
                &&& -dx - dy <= 200
                &&& -200 <= da <= 200
            },
{
    assert forall|i: int| 0 <= i < group.len() implies close(#[trigger] group[i], c) == {
        let g = group[i];
        let dx = g.x - c.x;
        let dy = g.y - c.y;
        let da = g.width * g.height - c.width * c.height;
        &&& dx + dy <= 200
        &&& dx - dy <= 200
        &&& -dx + dy <= 200
        &&& -dx - dy <= 200
        &&& -200 <= da <= 200
    } by {
        lemma_close_is_manhattan_and_area(group[i], c);
    }
}

/// A box is a square candidate exactly when its area lies strictly between
/// 20 and 1000 and its width-to-height ratio strictly between 19/20 and
/// 21/20 (so a box a little taller than wide qualifies as well as one a
/// little wider than tall); a box of zero height never does.
pub proof fn lemma_square_candidate_bounds(r: Rect)
    ensures
        is_square_candidate(r) <==> {
            let w = r.width as int;
            let h = r.height as int;
            &&& 20 < w * h < 1000
            &&& (h > 0 && 19 * h < 20 * w && 20 * w < 21 * h) || (h < 0 && 21 * h < 20 * w
                && 20 * w < 19 * h)
        },
{
}

proof fn lemma_squares_prefix_count(s: Seq<Rect>, n: nat)
    requires
        n <= s.len(),
    ensures
        squares_prefix(s, n).len() >= 1 <==> exists|i: int|
            0 <= i < n && is_square_candidate(#[trigger] s[i]),
        squares_prefix(s, n).len() >= 2 <==> exists|i: int, j: int|
            0 <= i < j < n && is_square_candidate(#[trigger] s[i]) && is_square_candidate(
                #[trigger] s[j],
            ),
        forall|k: int|
            0 <= k < squares_prefix(s, n).len() ==> exists|i: int|
                0 <= i < n && #[trigger] squares_prefix(s, n)[k] == s[i],
        forall|k: int|
            0 <= k < squares_prefix(s, n).len() ==> is_square_candidate(
                #[trigger] squares_prefix(s, n)[k],
            ),
    decreases n,
{
    if n > 0 {
        let m = (n - 1) as nat;
        lemma_squares_prefix_count(s, m);
        let p = squares_prefix(s, m);
        let q = squares_prefix(s, n);
        if is_square_candidate(s[n - 1]) {
            if p.len() >= 1 {
                let i = choose|i: int| 0 <= i < m && is_square_candidate(#[trigger] s[i]);
                assert(0 <= i < n - 1 && is_square_candidate(s[i]) && is_square_candidate(
                    s[n - 1],
                ));
            }
            assert(is_square_candidate(s[n - 1]));
        }
        if exists|i: int, j: int|
            0 <= i < j < n && is_square_candidate(#[trigger] s[i]) && is_square_candidate(
                #[trigger] s[j],
            ) {
            let (i, j) = choose|i: int, j: int|
                0 <= i < j < n && is_square_candidate(#[trigger] s[i]) && is_square_candidate(
                    #[trigger] s[j],
                );
            if j < n - 1 {
                assert(0 <= i < j < m && is_square_candidate(s[i]) && is_square_candidate(s[j]));
            } else {
                assert(0 <= i < m && is_square_candidate(s[i]));
            }
        }
        if exists|i: int| 0 <= i < n && is_square_candidate(#[trigger] s[i]) {
            let i = choose|i: int| 0 <= i < n && is_square_candidate(#[trigger] s[i]);
            if i < n - 1 {
                assert(0 <= i < m && is_square_candidate(s[i]));
            }
        }
        assert forall|k: int| 0 <= k < q.len() implies is_square_candidate(#[trigger] q[k]) by {
            if k < p.len() {
                assert(q[k] == p[k]);
            }
        }
        assert forall|k: int| 0 <= k < q.len() implies exists|i: int|
            0 <= i < n && #[trigger] q[k] == s[i] by {
            if k < p.len() {
                assert(q[k] == p[k]);
                let i = choose|i: int| 0 <= i < m && p[k] == s[i];
                assert(q[k] == s[i]);
            } else {
                assert(q[k] == s[n - 1]);
            }
        }
    }
}

proof fn lemma_squares_prefix_first(s: Seq<Rect>, n: nat, i: int)
    requires
        0 <= i < n <= s.len(),
        is_square_candidate(s[i]),
        forall|k: int| 0 <= k < i ==> !is_square_candidate(#[trigger] s[k]),
    ensures
        squares_prefix(s, n).len() >= 1,
        squares_prefix(s, n)[0] == s[i],
    decreases n,
{
    if n - 1 > i {
        lemma_squares_prefix_first(s, (n - 1) as nat, i);
    } else {
        lemma_squares_prefix_count(s, (n - 1) as nat);
        if squares_prefix(s, (n - 1) as nat).len() >= 1 {
            let k = choose|k: int| 0 <= k < n - 1 && is_square_candidate(#[trigger] s[k]);
            assert(!is_square_candidate(s[k]));
        }
    }
}

/// A checkerboard is found exactly when at least two of the boxes are square
/// candidates.
pub proof fn lemma_checkerboard_needs_two_squares(boxes: Seq<Rect>)
    ensures
        checkerboard_of(boxes) is Some <==> exists|i: int, j: int|
            0 <= i < j < boxes.len() && is_square_candidate(#[trigger] boxes[i])
                && is_square_candidate(#[trigger] boxes[j]),
{
    lemma_squares_prefix_count(boxes, boxes.len());
}

/// With corners in image coordinates, the found checkerboard box holds the
/// corner of the first square candidate, and each of its edges passes
/// through the corner of some square candidate.
pub proof fn lemma_checkerboard_holds_first_square(boxes: Seq<Rect>, i: int)
    requires
        forall|k: int| 0 <= k < boxes.len() ==> #[trigger] boxes[k].x >= 0 && boxes[k].y >= 0,
        0 <= i < boxes.len(),
        is_square_candidate(boxes[i]),
        forall|k: int| 0 <= k < i ==> !is_square_candidate(#[trigger] boxes[k]),
        checkerboard_of(boxes) is Some,
    ensures
        ({
            let b = checkerboard_of(boxes)->Some_0;
            &&& b.x <= boxes[i].x <= b.x + b.width
            &&& b.y <= boxes[i].y <= b.y + b.height
            &&& exists|k: int| 0 <= k < boxes.len() && is_square_candidate(#[trigger] boxes[k]) && boxes[k].x == b.x
            &&& exists|k: int| 0 <= k < boxes.len() && is_square_candidate(#[trigger] boxes[k]) && boxes[k].y == b.y
        }),
{
    let s = squares(boxes);
    lemma_squares_prefix_count(boxes, boxes.len());
    lemma_squares_prefix_first(boxes, boxes.len(), i);
    lemma_cluster_members(s, s.len());
    let c = cluster(s);
    assert forall|k: int| 0 <= k < c.len() implies coord(#[trigger] c[k], false) >= 0 && coord(
        c[k],
        true,
    ) >= 0 by {
        let j = choose|j: int| 0 <= j < s.len() && c[k] == s[j];
        let t = choose|t: int| 0 <= t < boxes.len() && s[j] == boxes[t];
        assert(boxes[t].x >= 0 && boxes[t].y >= 0);
    }
    lemma_nonnegative_extent(c, false);
    lemma_nonnegative_extent(c, true);
    lemma_least_greatest_bounds(c, c.len(), false);
    lemma_least_greatest_bounds(c, c.len(), true);
    lemma_adjacent_box_covers_cluster(s);
    assert(c[0] == boxes[i]);
    let b = adjacent_box(s);
    let kx = choose|k: int| 0 <= k < c.len() && #[trigger] c[k].x == b.x;
    let jx = choose|j: int| 0 <= j < s.len() && c[kx] == s[j];
    let tx = choose|t: int| 0 <= t < boxes.len() && s[jx] == boxes[t];
    assert(is_square_candidate(s[jx]));
    assert(is_square_candidate(boxes[tx]) && boxes[tx].x == b.x);
    let ky = choose|k: int| 0 <= k < c.len() && #[trigger] c[k].y == b.y;
    let jy = choose|j: int| 0 <= j < s.len() && c[ky] == s[j];
    let ty = choose|t: int| 0 <= t < boxes.len() && s[jy] == boxes[t];
    assert(is_square_candidate(s[jy]));
    assert(is_square_candidate(boxes[ty]) && boxes[ty].y == b.y);
}

proof fn lemma_cluster_prefix_grows(s: Seq<Rect>, n: nat, m: nat)
    requires
        1 <= n <= m <= s.len(),
    ensures
        cluster_prefix(s, n).len() <= cluster_prefix(s, m).len(),
        forall|k: int|
            0 <= k < cluster_prefix(s, n).len() ==> #[trigger] cluster_prefix(s, m)[k]
                == cluster_prefix(s, n)[k],
    decreases m,
{
    if m > n {
        lemma_cluster_prefix_grows(s, n, (m - 1) as nat);
    }
}

/// The group is as large as the greedy rule makes it: a later box that is
/// close to every earlier box already in the group belongs to the group, and
/// its corner lies in the adjacent box.
pub proof fn lemma_cluster_is_maximal(s: Seq<Rect>, j: int)
    requires
        1 <= j < s.len(),
        forall|i: int| 0 <= i < j && cluster(s).contains(#[trigger] s[i]) ==> close(s[i], s[j]),
    ensures
        cluster(s).contains(s[j]),
        adjacent_box_fits(s) ==> ({
            let b = adjacent_box(s);
            &&& b.x <= s[j].x <= b.x + b.width
            &&& b.y <= s[j].y <= b.y + b.height
        }),
{
    let p = cluster_prefix(s, j as nat);
    lemma_cluster_members(s, j as nat);
    lemma_cluster_prefix_grows(s, j as nat, s.len());
    lemma_cluster_prefix_grows(s, (j + 1) as nat, s.len());
    assert forall|k: int| 0 <= k < p.len() implies close(#[trigger] p[k], s[j]) by {
        let i = choose|i: int| 0 <= i < j && p[k] == s[i];
        assert(cluster(s)[k] == p[k]);
        assert(cluster(s).contains(s[i]));
    }
    let q = cluster_prefix(s, (j + 1) as nat);
    assert(q == p.push(s[j]));
    assert(cluster(s)[p.len() as int] == s[j]);
    if adjacent_box_fits(s) {
        lemma_adjacent_box_covers_cluster(s);
        assert(cluster(s)[p.len() as int] == s[j]);
    }
}

fn abs_i64(v: i64) -> (r: i64)
    requires
        v > i64::MIN,
    ensures
        r == abs(v as int),
{
    if v < 0 {
        -v
    } else {
        v
    }
}

fn abs_i128(v: i128) -> (r: i128)
    requires
        v > i128::MIN,
    ensures
        r == abs(v as int),
{
    if v < 0 {
        -v
    } else {
        v
    }
}

/// Whether `current` is close to every box of `res`: corners within
/// `ADJACENT_DIST` (Manhattan) and areas within `ADJACENT_AREA_DIFF`.
pub fn is_close(res: &Vec<Rect>, current: &Rect) -> (b: bool)
    ensures
        b == close_to_all(res@, *current),
{
    let n = res.len();
    let mut i: usize = 0;
    while i < n
        invariant
            n == res.len(),
            i <= n,
            forall|k: int| 0 <= k < i ==> close(#[trigger] res@[k], *current),
        decreases n - i,
    {
        let o = &res[i];
        let dx = abs_i64(o.x as i64 - current.x as i64);
        let dy = abs_i64(o.y as i64 - current.y as i64);
        let da = abs_i128(o.area() as i128 - current.area() as i128);
        if dx + dy > ADJACENT_DIST || da > ADJACENT_AREA_DIFF {
            assert(!close(res@[i as int], *current));
            return false;
        }
        i += 1;
    }
    true
}

/// Whether a bounding box may be one square of the checkerboard.
pub fn is_square(r: &Rect) -> (b: bool)
    ensures
        b == is_square_candidate(*r),
{
    let a = r.area();
    let w: i64 = r.width as i64;
    let h: i64 = r.height as i64;
    let d = MAX_RATIO_DENOMINATOR;
    assert(-2147483648 <= w <= 2147483647 && -2147483648 <= h <= 2147483647);
    assert(-100000000000 <= (d - 1) * h <= 100000000000 && -100000000000 <= d * w
        <= 100000000000 && -100000000000 <= (d + 1) * h <= 100000000000) by (nonlinear_arith)
        requires
            d == 20,
            -2147483648 <= w <= 2147483647,
            -2147483648 <= h <= 2147483647,
    ;
    let ratio_ok = if h > 0 {
        (d - 1) * h < d * w && d * w < (d + 1) * h
    } else if h < 0 {
        (d + 1) * h < d * w && d * w < (d - 1) * h
    } else {
        false
    };
    MIN_AREA < a && a < MAX_AREA && ratio_ok
}

/// The bounding box around the boxes close to each other: the first box
/// starts a group, each later box joins when it is close to every box
/// already in the group, and the result spans the top-left corners of the
/// group (from the least corner coordinates to the greatest ones).
/// With fewer than two boxes there is none. The first box is taken out of
/// `original`, as the group's seed, whenever there are at least two.
pub fn find_adjacent(original: &mut Vec<Rect>) -> (r: Option<Rect>)
    requires
        old(original)@.len() >= 2 ==> adjacent_box_fits(old(original)@),
    ensures
        old(original)@.len() < 2 ==> r is None && final(original)@ == old(original)@,
        old(original)@.len() >= 2 ==> r == Some(adjacent_box(old(original)@)),
        old(original)@.len() >= 2 ==> final(original)@ == old(original)@.drop_first(),
{
    if original.len() < 2 {
        return None;
    }
    let ghost s = original@;
    let mut res: Vec<Rect> = Vec::new();
    res.push(original.remove(0));
    assert(original@ =~= s.drop_first());
    assert(res@ =~= cluster_prefix(s, 1));
    let n = original.len();
    let mut i: usize = 0;
    while i < n
        invariant
            n == original.len(),
            n + 1 == s.len(),
            original@ == s.drop_first(),
            i <= n,
            res@ == cluster_prefix(s, (i + 1) as nat),
        decreases n - i,
    {
        let item = original[i];
        assert(item == s[i + 1]);
        if is_close(&res, &item) {
            res.push(item);
        }
        i += 1;
    }
    assert(res@ == cluster(s));
    proof {
        lemma_cluster_members(s, s.len());
    }
    let m = res.len();
    let mut min_x = res[0].x;
    let mut max_x = res[0].x;
    let mut min_y = res[0].y;
    let mut max_y = res[0].y;
    let mut k: usize = 0;
    while k < m
        invariant
            m == res.len(),
            m >= 1,
            k <= m,
            k == 0 ==> min_x == res@[0].x && min_y == res@[0].y && max_x == res@[0].x && max_y
                == res@[0].y,
            k >= 1 ==> min_x == least_prefix(res@, k as nat, false),
            k >= 1 ==> min_y == least_prefix(res@, k as nat, true),
            k >= 1 ==> max_x == greatest_prefix(res@, k as nat, false),
            k >= 1 ==> max_y == greatest_prefix(res@, k as nat, true),
        decreases m - k,
    {
        let item = res[k];
        if item.x < min_x {
            min_x = item.x;
        }
        if item.x > max_x {
            max_x = item.x;
        }
        if item.y < min_y {
            min_y = item.y;
        }
        if item.y > max_y {
            max_y = item.y;
        }
        k += 1;
    }
    Some(Rect::new(min_x, min_y, max_x - min_x, max_y - min_y))
}

/// Picks the checkerboard out of the bounding boxes of the bright contours
/// of a frame: keeps the boxes that may be squares (area and aspect ratio),
/// then returns the box around the squares adjacent to the first one.
/// The boxes are in image coordinates, so their corners are not negative.
pub fn detect_checkerboard(boxes: &Vec<Rect>) -> (r: Option<Rect>)
    requires
        forall|i: int| 0 <= i < boxes.len() ==> #[trigger] boxes@[i].x >= 0 && boxes@[i].y >= 0,
    ensures
        r == checkerboard_of(boxes@),
{
    let n = boxes.len();
    let mut found: Vec<Rect> = Vec::new();
    let mut i: usize = 0;
    while i < n
        invariant
            n == boxes.len(),
            i <= n,
            found@ == squares_prefix(boxes@, i as nat),
            forall|k: int| 0 <= k < boxes.len() ==> #[trigger] boxes@[k].x >= 0 && boxes@[k].y >= 0,
            forall|k: int| 0 <= k < found.len() ==> #[trigger] found@[k].x >= 0 && found@[k].y >= 0,
        decreases n - i,
    {
        let b = boxes[i];
        if is_square(&b) {
            found.push(b);
        }
        i += 1;
    }
    assert(found@ == squares(boxes@));
    let ghost s = found@;
    if found.len() >= 2 {
        proof {
            lemma_cluster_members(s, s.len());
            let c = cluster(s);
            assert forall|k: int| 0 <= k < c.len() implies coord(#[trigger] c[k], false) >= 0
                && coord(c[k], true) >= 0 by {
                let j = choose|j: int| 0 <= j < s.len() && c[k] == s[j];
                assert(s[j].x >= 0 && s[j].y >= 0);
            }
            lemma_nonnegative_extent(c, false);
            lemma_nonnegative_extent(c, true);
            lemma_least_greatest_bounds(c, c.len(), false);
            lemma_least_greatest_bounds(c, c.len(), true);
        }
    }
    find_adjacent(&mut found)
}

/// The face that the cascade reported first, if any.
pub fn detect_faces(faces: &Vec<Rect>) -> (r: Option<Rect>)
    ensures
        r == (if faces@.len() > 0 {
            Some(faces@[0])
        } else {
            None
        }),
{
    if faces.len() > 0 {
        Some(faces[0])
    } else {
        None
    }
}

} // verus!
