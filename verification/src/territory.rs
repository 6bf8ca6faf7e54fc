//! Nearest-coordinate territories on a grid: Manhattan distances, the
//! bounding box of a coordinate set, per-coordinate claimed areas, and the
//! region within a total-distance limit.

use vstd::prelude::*;

use crate::text::expect_lit;
use crate::text::lit_at;
use crate::text::scan_i64;
use crate::text::scan_i64_at;

verus! {

/// A grid point.
#[derive(Debug, Clone, Copy, PartialEq, Eq, Structural)]
pub struct Pt {
    pub x: i64,
    pub y: i64,
}

/// A rectangle spanned by two corner points.
#[derive(Debug, Clone, Copy, PartialEq, Eq, Structural)]
pub struct Rect {
    pub p0: Pt,
    pub p1: Pt,
}

/// The absolute value.
pub open spec fn abs_of(a: int) -> int {
    if a < 0 {
        -a
    } else {
        a
    }
}

/// The Manhattan distance between two points.
pub open spec fn dist_of(a: Pt, b: Pt) -> int {
    abs_of(a.x - b.x) + abs_of(a.y - b.y)
}

/// The point's coordinates lie within plus or minus thirty thousand.
pub open spec fn pt_bounded(p: Pt) -> bool {
    -30000 <= p.x <= 30000 && -30000 <= p.y <= 30000
}

/// Every listed point is bounded.
pub open spec fn pts_bounded(coords: Seq<Pt>) -> bool {
    forall|k: int| 0 <= k < coords.len() ==> pt_bounded(#[trigger] coords[k])
}

impl Pt {
    /// The Manhattan distance to another point.
    pub fn dist(&self, other: &Pt) -> (r: i64)
        requires
            pt_bounded(*self),
            pt_bounded(*other),
        ensures
            r == dist_of(*self, *other),
            0 <= r <= 120000,
    {
        let dx = if self.x >= other.x {
            self.x - other.x
        } else {
            other.x - self.x
        };
        let dy = if self.y >= other.y {
            self.y - other.y
        } else {
            other.y - self.y
        };
        dx + dy
    }
}

/// The error returned for a line that does not spell a coordinate.
#[derive(Debug, Clone, Copy, PartialEq, Eq, Structural)]
pub enum CoordParseError {
    Malformed,
}

/// The two numbers of a line of the exact form `x, y` with unsigned
/// decimal numbers.
pub open spec fn spec_parse_coord(s: Seq<char>) -> Option<(int, int)> {
    match scan_i64_at(s, 0) {
        Option::None => Option::None,
        Option::Some((x, p1)) => if x < 0 || !lit_at(s, p1, seq![',', ' ']) {
            Option::None
        } else {
            match scan_i64_at(s, p1 + 2) {
                Option::None => Option::None,
                Option::Some((y, p2)) => if y >= 0 && p2 == s.len() {
                    Option::Some((x, y))
                } else {
                    Option::None
                },
            }
        },
    }
}

/// Parses a coordinate line of the form `x, y`.
pub fn parse_coord(s: &str) -> (r: Result<Pt, CoordParseError>)
    ensures
        (r is Ok) <==> (spec_parse_coord(s@) is Some),
        r matches Ok(p) ==> spec_parse_coord(s@) matches Some(v) && p.x == v.0 && p.y == v.1,
        r matches Err(e) ==> e == CoordParseError::Malformed,
{
    proof {
        reveal_strlit(", ");
        assert(", "@ =~= seq![',', ' ']);
    }
    let (x, p1) = match scan_i64(s, 0) {
        Some(v) => v,
        None => {
            return Err(CoordParseError::Malformed);
        },
    };
    if x < 0 {
        return Err(CoordParseError::Malformed);
    }
    let p1b = match expect_lit(s, p1, ", ") {
        Some(p) => p,
        None => {
            return Err(CoordParseError::Malformed);
        },
    };
    let (y, p2) = match scan_i64(s, p1b) {
        Some(v) => v,
        None => {
            return Err(CoordParseError::Malformed);
        },
    };
    if y < 0 || p2 != s.unicode_len() {
        return Err(CoordParseError::Malformed);
    }
    Ok(Pt { x, y })
}

/// The least `x` among the points.
pub open spec fn pts_min_x(coords: Seq<Pt>) -> int
    decreases coords.len(),
{
    if coords.len() <= 1 {
        coords[0].x as int
    } else {
        let m = pts_min_x(coords.drop_last());
        if coords.last().x < m {
            coords.last().x as int
        } else {
            m
        }
    }
}

/// The least `y` among the points.
pub open spec fn pts_min_y(coords: Seq<Pt>) -> int
    decreases coords.len(),
{
    if coords.len() <= 1 {
        coords[0].y as int
    } else {
        let m = pts_min_y(coords.drop_last());
        if coords.last().y < m {
            coords.last().y as int
        } else {
            m
        }
    }
}

/// The greatest `x` among the points.
pub open spec fn pts_max_x(coords: Seq<Pt>) -> int
    decreases coords.len(),
{
    if coords.len() <= 1 {
        coords[0].x as int
    } else {
        let m = pts_max_x(coords.drop_last());
        if coords.last().x > m {
            coords.last().x as int
        } else {
            m
        }
    }
}

/// The greatest `y` among the points.
pub open spec fn pts_max_y(coords: Seq<Pt>) -> int
    decreases coords.len(),
{
    if coords.len() <= 1 {
        coords[0].y as int
    } else {
        let m = pts_max_y(coords.drop_last());
        if coords.last().y > m {
            coords.last().y as int
        } else {
            m
        }
    }
}

/// The bounding box of a nonempty coordinate list.
pub open spec fn spec_bbox(coords: Seq<Pt>) -> Rect {
    Rect {
        p0: Pt { x: pts_min_x(coords) as i64, y: pts_min_y(coords) as i64 },
        p1: Pt { x: pts_max_x(coords) as i64, y: pts_max_y(coords) as i64 },
    }
}

/// The bounding box edges stay within the coordinate bounds.
proof fn lemma_bbox_bounded(coords: Seq<Pt>)
    requires
        pts_bounded(coords),
        coords.len() >= 1,
    ensures
        -30000 <= pts_min_x(coords) <= 30000,
        -30000 <= pts_min_y(coords) <= 30000,
        -30000 <= pts_max_x(coords) <= 30000,
        -30000 <= pts_max_y(coords) <= 30000,
    decreases coords.len(),
{
    assert(pt_bounded(coords[0]));
    if coords.len() > 1 {
        assert(pts_bounded(coords.drop_last())) by {
            assert forall|k: int| 0 <= k < coords.drop_last().len() implies pt_bounded(
                #[trigger] coords.drop_last()[k],
            ) by {
                assert(coords.drop_last()[k] == coords[k]);
            }
        }
        lemma_bbox_bounded(coords.drop_last());
        assert(pt_bounded(coords[coords.len() - 1]));
    }
}

/// The smallest rectangle containing every listed point.
pub fn bounding_box(coords: &Vec<Pt>) -> (r: Rect)
    requires
        coords@.len() >= 1,
    ensures
        r == spec_bbox(coords@),
{
    let mut bounds = Rect { p0: coords[0], p1: coords[0] };
    let mut k: usize = 1;
    proof {
        assert(coords@.take(1).len() == 1);
        assert(coords@.take(1)[0] == coords@[0]);
    }
    while k < coords.len()
        invariant
            1 <= k <= coords@.len(),
            bounds.p0.x as int == pts_min_x(coords@.take(k as int)),
            bounds.p0.y as int == pts_min_y(coords@.take(k as int)),
            bounds.p1.x as int == pts_max_x(coords@.take(k as int)),
            bounds.p1.y as int == pts_max_y(coords@.take(k as int)),
        decreases coords@.len() - k,
    {
        proof {
            assert(coords@.take(k + 1).drop_last() =~= coords@.take(k as int));
            assert(coords@.take(k + 1).last() == coords@[k as int]);
        }
        let c = coords[k];
        if c.x < bounds.p0.x {
            bounds.p0.x = c.x;
        }
        if c.y < bounds.p0.y {
            bounds.p0.y = c.y;
        }
        if c.x > bounds.p1.x {
            bounds.p1.x = c.x;
        }
        if c.y > bounds.p1.y {
            bounds.p1.y = c.y;
        }
        k = k + 1;
    }
    proof {
        assert(coords@.take(coords@.len() as int) =~= coords@);
    }
    bounds
}

/// The least distance from `q` to any of the first `k` coordinates.
pub open spec fn min_dist_pre(coords: Seq<Pt>, q: Pt, k: int) -> int
    decreases k,
{
    if k <= 1 {
        dist_of(coords[0], q)
    } else {
        let m = min_dist_pre(coords, q, k - 1);
        if dist_of(coords[k - 1], q) < m {
            dist_of(coords[k - 1], q)
        } else {
            m
        }
    }
}

/// The least distance from `q` to any coordinate.
pub open spec fn min_dist(coords: Seq<Pt>, q: Pt) -> int {
    min_dist_pre(coords, q, coords.len() as int)
}

/// The minimum is a lower bound and is attained.
proof fn lemma_min_dist_pre(coords: Seq<Pt>, q: Pt, k: int)
    requires
        1 <= k <= coords.len(),
    ensures
        forall|i: int| 0 <= i < k ==> min_dist_pre(coords, q, k) <= dist_of(#[trigger] coords[i], q),
        exists|i: int| 0 <= i < k && dist_of(#[trigger] coords[i], q) == min_dist_pre(coords, q, k),
    decreases k,
{
    if k > 1 {
        lemma_min_dist_pre(coords, q, k - 1);
    } else {
        assert(dist_of(coords[0], q) == min_dist_pre(coords, q, k));
    }
}

/// Some index before `k` attains the minimum more than once.
pub open spec fn tied_at(coords: Seq<Pt>, q: Pt, k: int) -> bool {
    exists|i: int, j: int|
        0 <= i < j < k && dist_of(#[trigger] coords[i], q) == min_dist_pre(coords, q, k)
            && dist_of(#[trigger] coords[j], q) == min_dist_pre(coords, q, k)
}

/// The coordinate closest to `q`, or nothing when the least distance is
/// attained by two or more coordinates.
pub open spec fn owner_of(coords: Seq<Pt>, q: Pt) -> Option<Pt> {
    if tied_at(coords, q, coords.len() as int) {
        Option::None
    } else {
        Option::Some(
            coords[choose|i: int|
                0 <= i < coords.len() && dist_of(#[trigger] coords[i], q) == min_dist(coords, q)],
        )
    }
}

/// Finds the unique closest coordinate to `pt`, scanning in order and
/// resetting to nothing whenever the least distance so far is met again.
pub fn calc_owner_of_point(pt: &Pt, coords: &Vec<Pt>) -> (r: Option<Pt>)
    requires
        coords@.len() >= 1,
        pts_bounded(coords@),
        pt_bounded(*pt),
    ensures
        r == owner_of(coords@, *pt),
{
    let mut min_d = coords[0].dist(pt);
    let mut owner: Option<Pt> = Some(coords[0]);
    let ghost mut owner_idx: int = 0;
    let mut k: usize = 1;
    while k < coords.len()
        invariant
            1 <= k <= coords@.len(),
            pts_bounded(coords@),
            pt_bounded(*pt),
            min_d as int == min_dist_pre(coords@, *pt, k as int),
            owner is None <==> tied_at(coords@, *pt, k as int),
            owner matches Some(c) ==> 0 <= owner_idx < k && c == coords@[owner_idx] && dist_of(
                coords@[owner_idx],
                *pt,
            ) == min_d as int && (forall|i: int|
                0 <= i < k && i != owner_idx ==> dist_of(#[trigger] coords@[i], *pt) > min_d as int),
        decreases coords@.len() - k,
    {
        let d = coords[k].dist(pt);
        if d < min_d {
            proof {
                lemma_min_dist_pre(coords@, *pt, k as int);
                assert(!tied_at(coords@, *pt, k + 1)) by {
                    if tied_at(coords@, *pt, k + 1) {
                        let (i, j) = choose|i: int, j: int|
                            0 <= i < j < k + 1 && dist_of(#[trigger] coords@[i], *pt)
                                == min_dist_pre(coords@, *pt, k + 1) && dist_of(
                                #[trigger] coords@[j],
                                *pt,
                            ) == min_dist_pre(coords@, *pt, k + 1);
                        assert(dist_of(coords@[i], *pt) >= min_dist_pre(coords@, *pt, k as int));
                        assert(false);
                    }
                }
            }
            min_d = d;
            owner = Some(coords[k]);
            proof {
                owner_idx = k as int;
            }
        } else if d == min_d {
            proof {
                if owner is Some {
                    assert(tied_at(coords@, *pt, k + 1)) by {
                        assert(dist_of(coords@[owner_idx], *pt) == min_dist_pre(
                            coords@,
                            *pt,
                            k + 1,
                        ));
                        assert(dist_of(coords@[k as int], *pt) == min_dist_pre(
                            coords@,
                            *pt,
                            k + 1,
                        ));
                    }
                } else {
                    let (i, j) = choose|i: int, j: int|
                        0 <= i < j < k && dist_of(#[trigger] coords@[i], *pt) == min_dist_pre(
                            coords@,
                            *pt,
                            k as int,
                        ) && dist_of(#[trigger] coords@[j], *pt) == min_dist_pre(
                            coords@,
                            *pt,
                            k as int,
                        );
                    assert(tied_at(coords@, *pt, k + 1)) by {
                        assert(dist_of(coords@[i], *pt) == min_dist_pre(coords@, *pt, k + 1));
                        assert(dist_of(coords@[j], *pt) == min_dist_pre(coords@, *pt, k + 1));
                    }
                }
            }
            owner = None;
        } else {
            proof {
                if owner is None {
                    let (i, j) = choose|i: int, j: int|
                        0 <= i < j < k && dist_of(#[trigger] coords@[i], *pt) == min_dist_pre(
                            coords@,
                            *pt,
                            k as int,
                        ) && dist_of(#[trigger] coords@[j], *pt) == min_dist_pre(
                            coords@,
                            *pt,
                            k as int,
                        );
                    assert(tied_at(coords@, *pt, k + 1)) by {
                        assert(dist_of(coords@[i], *pt) == min_dist_pre(coords@, *pt, k + 1));
                        assert(dist_of(coords@[j], *pt) == min_dist_pre(coords@, *pt, k + 1));
                    }
                } else {
                    assert(!tied_at(coords@, *pt, k + 1)) by {
                        if tied_at(coords@, *pt, k + 1) {
                            let (i, j) = choose|i: int, j: int|
                                0 <= i < j < k + 1 && dist_of(#[trigger] coords@[i], *pt)
                                    == min_dist_pre(coords@, *pt, k + 1) && dist_of(
                                    #[trigger] coords@[j],
                                    *pt,
                                ) == min_dist_pre(coords@, *pt, k + 1);
                            assert(i == owner_idx || dist_of(coords@[i], *pt) > min_d as int);
                            assert(j == owner_idx || dist_of(coords@[j], *pt) > min_d as int);
                            assert(false);
                        }
                    }
                }
            }
        }
        k = k + 1;
    }
    proof {
        if owner matches Some(c) {
            let w = choose|i: int|
                0 <= i < coords@.len() && dist_of(#[trigger] coords@[i], *pt) == min_dist(
                    coords@,
                    *pt,
                );
            lemma_min_dist_pre(coords@, *pt, coords@.len() as int);
            assert(w == owner_idx) by {
                if w != owner_idx {
                    assert(dist_of(coords@[w], *pt) > min_d as int);
                }
            }
        }
    }
    owner
}

/// The point lies on the edge of the rectangle, as the boundary scan walks
/// it: the top and bottom rows across the full width, and the two side
/// columns strictly between them.
pub open spec fn on_boundary(b: Rect, q: Pt) -> bool {
    ((b.p0.x <= q.x <= b.p1.x) && (q.y == b.p0.y || q.y == b.p1.y)) || ((b.p0.y < q.y < b.p1.y) && (
    q.x == b.p0.x || q.x == b.p1.x))
}

/// The coordinate owns some cell on the rectangle's edge, so its area
/// grows without bound.
pub open spec fn is_infinite_owner(coords: Seq<Pt>, b: Rect, p: Pt) -> bool {
    exists|q: Pt| #[trigger] on_boundary(b, q) && owner_of(coords, q) == Option::Some(p)
}

/// Whether the vector holds the point.
fn vec_contains_pt(v: &Vec<Pt>, p: Pt) -> (r: bool)
    ensures
        r == v@.contains(p),
{
    let mut k: usize = 0;
    while k < v.len()
        invariant
            k <= v@.len(),
            forall|j: int| 0 <= j < k ==> v@[j] != p,
        decreases v@.len() - k,
    {
        if v[k] == p {
            return true;
        }
        k = k + 1;
    }
    false
}

/// Adds an owner to the list unless it is already present.
fn add_owner(owners: &mut Vec<Pt>, o: Pt)
    requires
        old(owners)@.no_duplicates(),
    ensures
        final(owners)@.no_duplicates(),
        forall|u: Pt| final(owners)@.contains(u) <==> (old(owners)@.contains(u) || u == o),
{
    if !vec_contains_pt(owners, o) {
        proof {
            lemma_push_pt(owners@, o);
        }
        owners.push(o);
    }
}

/// Collects every coordinate that owns a cell on the edge of the given
/// rectangle; each such owner is listed once.
pub fn calc_infinite_owners(coords: &Vec<Pt>, bounds: &Rect) -> (r: Vec<Pt>)
    requires
        coords@.len() >= 1,
        pts_bounded(coords@),
        pt_bounded(bounds.p0),
        pt_bounded(bounds.p1),
    ensures
        r@.no_duplicates(),
        forall|p: Pt| r@.contains(p) <==> is_infinite_owner(coords@, *bounds, p),
{
    let mut owners: Vec<Pt> = Vec::new();
    let ghost b = *bounds;
    let mut x: i64 = bounds.p0.x;
    while x <= bounds.p1.x
        invariant
            coords@.len() >= 1,
            pts_bounded(coords@),
            pt_bounded(b.p0),
            pt_bounded(b.p1),
            b == *bounds,
            b.p0.x <= x,
            x <= b.p1.x + 1 || x == b.p0.x,
            owners@.no_duplicates(),
            forall|p: Pt|
                owners@.contains(p) <==> exists|q: Pt|
                    #[trigger] on_boundary(b, q) && q.x < x && (q.y == b.p0.y || q.y == b.p1.y)
                        && owner_of(coords@, q) == Option::Some(p),
        decreases b.p1.x + 1 - x,
    {
        let ghost pre = owners@;
        let top = Pt { x, y: bounds.p0.y };
        let bot = Pt { x, y: bounds.p1.y };
        let r_top = calc_owner_of_point(&top, coords);
        match r_top {
            Some(o) => {
                add_owner(&mut owners, o);
            },
            None => {},
        }
        let ghost mid = owners@;
        let r_bot = calc_owner_of_point(&bot, coords);
        match r_bot {
            Some(o) => {
                add_owner(&mut owners, o);
            },
            None => {},
        }
        proof {
            assert(on_boundary(b, top));
            assert(on_boundary(b, bot));
            assert forall|p: Pt| owners@.contains(p) implies exists|q: Pt|
                #[trigger] on_boundary(b, q) && q.x < x + 1 && (q.y == b.p0.y || q.y == b.p1.y)
                    && owner_of(coords@, q) == Option::Some(p) by {
                if pre.contains(p) {
                    let q = choose|q: Pt|
                        #[trigger] on_boundary(b, q) && q.x < x && (q.y == b.p0.y || q.y == b.p1.y)
                            && owner_of(coords@, q) == Option::Some(p);
                    assert(on_boundary(b, q) && q.x < x + 1 && (q.y == b.p0.y || q.y == b.p1.y)
                        && owner_of(coords@, q) == Option::Some(p));
                } else if mid.contains(p) {
                    assert(r_top == Option::Some(p));
                    assert(on_boundary(b, top) && top.x < x + 1 && (top.y == b.p0.y || top.y
                        == b.p1.y) && owner_of(coords@, top) == Option::Some(p));
                } else {
                    assert(r_bot == Option::Some(p));
                    assert(on_boundary(b, bot) && bot.x < x + 1 && (bot.y == b.p0.y || bot.y
                        == b.p1.y) && owner_of(coords@, bot) == Option::Some(p));
                }
            }
            assert forall|p: Pt|
                exists|q: Pt|
                    #[trigger] on_boundary(b, q) && q.x < x + 1 && (q.y == b.p0.y || q.y == b.p1.y)
                        && owner_of(coords@, q) == Option::Some(p) implies owners@.contains(p) by {
                let q = choose|q: Pt|
                    #[trigger] on_boundary(b, q) && q.x < x + 1 && (q.y == b.p0.y || q.y == b.p1.y)
                        && owner_of(coords@, q) == Option::Some(p);
                if q.x < x {
                    assert(pre.contains(p));
                    assert(mid.contains(p));
                } else {
                    assert(q.x == x);
                    if q.y == b.p0.y {
                        assert(q == top);
                        assert(mid.contains(p));
                    } else {
                        assert(q == bot);
                    }
                }
            }
        }
        x = x + 1;
    }
    let mut y: i64 = bounds.p0.y + 1;
    while y < bounds.p1.y
        invariant
            coords@.len() >= 1,
            pts_bounded(coords@),
            pt_bounded(b.p0),
            pt_bounded(b.p1),
            b == *bounds,
            b.p0.y + 1 <= y,
            y <= b.p1.y || y == b.p0.y + 1,
            owners@.no_duplicates(),
            forall|p: Pt|
                owners@.contains(p) <==> exists|q: Pt|
                    #[trigger] on_boundary(b, q) && ((q.y == b.p0.y || q.y == b.p1.y) || q.y < y)
                        && owner_of(coords@, q) == Option::Some(p),
        decreases b.p1.y - y,
    {
        let ghost pre = owners@;
        let left = Pt { x: bounds.p0.x, y };
        let right = Pt { x: bounds.p1.x, y };
        let r_left = calc_owner_of_point(&left, coords);
        match r_left {
            Some(o) => {
                add_owner(&mut owners, o);
            },
            None => {},
        }
        let ghost mid = owners@;
        let r_right = calc_owner_of_point(&right, coords);
        match r_right {
            Some(o) => {
                add_owner(&mut owners, o);
            },
            None => {},
        }
        proof {
            assert(on_boundary(b, left));
            assert(on_boundary(b, right));
            assert forall|p: Pt| owners@.contains(p) implies exists|q: Pt|
                #[trigger] on_boundary(b, q) && ((q.y == b.p0.y || q.y == b.p1.y) || q.y < y + 1)
                    && owner_of(coords@, q) == Option::Some(p) by {
                if pre.contains(p) {
                    let q = choose|q: Pt|
                        #[trigger] on_boundary(b, q) && ((q.y == b.p0.y || q.y == b.p1.y) || q.y
                            < y) && owner_of(coords@, q) == Option::Some(p);
                    assert(on_boundary(b, q) && ((q.y == b.p0.y || q.y == b.p1.y) || q.y < y + 1)
                        && owner_of(coords@, q) == Option::Some(p));
                } else if mid.contains(p) {
                    assert(r_left == Option::Some(p));
                    assert(on_boundary(b, left) && left.y < y + 1 && owner_of(coords@, left)
                        == Option::Some(p));
                } else {
                    assert(r_right == Option::Some(p));
                    assert(on_boundary(b, right) && right.y < y + 1 && owner_of(coords@, right)
                        == Option::Some(p));
                }
            }
            assert forall|p: Pt|
                exists|q: Pt|
                    #[trigger] on_boundary(b, q) && ((q.y == b.p0.y || q.y == b.p1.y) || q.y < y
                        + 1) && owner_of(coords@, q) == Option::Some(p) implies owners@.contains(
                p,
            ) by {
                let q = choose|q: Pt|
                    #[trigger] on_boundary(b, q) && ((q.y == b.p0.y || q.y == b.p1.y) || q.y < y
                        + 1) && owner_of(coords@, q) == Option::Some(p);
                if q.y == b.p0.y || q.y == b.p1.y {
                    assert(q.x < b.p1.x + 1);
                    assert(pre.contains(p));
                    assert(mid.contains(p));
                } else if q.y < y {
                    assert(pre.contains(p));
                    assert(mid.contains(p));
                } else {
                    assert(q.y == y);
                    assert(b.p0.y < q.y < b.p1.y);
                    if q.x == b.p0.x {
                        assert(q == left);
                        assert(mid.contains(p));
                    } else {
                        assert(q == right);
                    }
                }
            }
        }
        y = y + 1;
    }
    proof {
        assert forall|p: Pt| owners@.contains(p) implies is_infinite_owner(coords@, b, p) by {}
        assert forall|p: Pt| is_infinite_owner(coords@, b, p) implies owners@.contains(p) by {
            let q = choose|q: Pt|
                #[trigger] on_boundary(b, q) && owner_of(coords@, q) == Option::Some(p);
            if q.y == b.p0.y || q.y == b.p1.y {
                assert(q.x < b.p1.x + 1);
            } else {
                assert(b.p0.y < q.y < b.p1.y);
            }
        }
    }
    owners
}

/// Pushing a fresh point keeps the list duplicate-free and adds exactly it.
proof fn lemma_push_pt(s: Seq<Pt>, p: Pt)
    requires
        !s.contains(p),
        s.no_duplicates(),
    ensures
        s.push(p).no_duplicates(),
        forall|u: Pt| s.push(p).contains(u) <==> (s.contains(u) || u == p),
{
    assert forall|a: int, bq: int| 0 <= a < bq < s.push(p).len() implies s.push(p)[a] != s.push(
        p,
    )[bq] by {
        if bq < s.len() {
            assert(s.push(p)[a] == s[a] && s.push(p)[bq] == s[bq]);
        } else {
            assert(s.push(p)[bq] == p);
            assert(s.push(p)[a] == s[a]);
            assert(s.contains(s[a]));
        }
    }
    assert forall|u: Pt| s.push(p).contains(u) implies (s.contains(u) || u == p) by {
        let j = choose|j: int| 0 <= j < s.push(p).len() && s.push(p)[j] == u;
        if j < s.len() {
            assert(s[j] == u);
        }
    }
    assert forall|u: Pt| s.contains(u) || u == p implies s.push(p).contains(u) by {
        if u == p {
            assert(s.push(p).last() == u);
        } else {
            let j = choose|j: int| 0 <= j < s.len() && s[j] == u;
            assert(s.push(p)[j] == u);
        }
    }
}

/// The number of cells in row `y`, columns `x0..x1`, owned by `p`.
pub open spec fn owned_in_row(coords: Seq<Pt>, p: Pt, y: int, x0: int, x1: int) -> int
    decreases x1 - x0,
{
    if x1 <= x0 {
        0
    } else {
        owned_in_row(coords, p, y, x0, x1 - 1) + if owner_of(
            coords,
            Pt { x: (x1 - 1) as i64, y: y as i64 },
        ) == Option::Some(p) {
            1int
        } else {
            0int
        }
    }
}

/// The number of cells owned by `p` over rows `y0..y1`, columns `x0..x1`.
pub open spec fn owned_in_rect(coords: Seq<Pt>, p: Pt, y0: int, y1: int, x0: int, x1: int) -> int
    decreases y1 - y0,
{
    if y1 <= y0 {
        0
    } else {
        owned_in_rect(coords, p, y0, y1 - 1, x0, x1) + owned_in_row(coords, p, y1 - 1, x0, x1)
    }
}

/// Row ownership counts are bounded by the width.
proof fn lemma_owned_row_bound(coords: Seq<Pt>, p: Pt, y: int, x0: int, x1: int)
    requires
        x0 <= x1,
    ensures
        0 <= owned_in_row(coords, p, y, x0, x1) <= x1 - x0,
    decreases x1 - x0,
{
    if x0 < x1 {
        lemma_owned_row_bound(coords, p, y, x0, x1 - 1);
    }
}

/// Rectangle ownership counts are bounded by the width per row.
proof fn lemma_owned_rect_bound(coords: Seq<Pt>, p: Pt, y0: int, y1: int, x0: int, x1: int)
    requires
        y0 <= y1,
        x0 <= x1,
        x1 - x0 <= 60000,
    ensures
        0 <= owned_in_rect(coords, p, y0, y1, x0, x1) <= 60000 * (y1 - y0),
    decreases y1 - y0,
{
    if y0 < y1 {
        lemma_owned_rect_bound(coords, p, y0, y1 - 1, x0, x1);
        lemma_owned_row_bound(coords, p, y1 - 1, x0, x1);
    }
}

/// A window with no columns holds no owned cells.
proof fn lemma_owned_degenerate(coords: Seq<Pt>, p: Pt, y0: int, y1: int, x0: int, x1: int)
    requires
        x1 <= x0,
    ensures
        owned_in_rect(coords, p, y0, y1, x0, x1) == 0,
    decreases y1 - y0,
{
    if y0 < y1 {
        lemma_owned_degenerate(coords, p, y0, y1 - 1, x0, x1);
    }
}

/// The index of the entry keyed by `p`.
pub open spec fn area_key_idx(m: Seq<(Pt, i64)>, p: Pt) -> int {
    choose|k: int| 0 <= k < m.len() && (#[trigger] m[k]).0 == p
}

/// Whether some entry is keyed by `p`.
pub open spec fn area_has_key(m: Seq<(Pt, i64)>, p: Pt) -> bool {
    exists|k: int| 0 <= k < m.len() && (#[trigger] m[k]).0 == p
}

/// The count recorded for `p`, or zero without an entry.
pub open spec fn area_val(m: Seq<(Pt, i64)>, p: Pt) -> int {
    if area_has_key(m, p) {
        m[area_key_idx(m, p)].1 as int
    } else {
        0
    }
}

/// The keys of the entries are pairwise distinct.
pub open spec fn area_keys_distinct(m: Seq<(Pt, i64)>) -> bool {
    forall|k1: int, k2: int|
        0 <= k1 < k2 < m.len() ==> (#[trigger] m[k1]).0 != (#[trigger] m[k2]).0
}

/// With distinct keys, an entry keyed by `p` is the entry of `p`.
proof fn lemma_area_key(m: Seq<(Pt, i64)>, p: Pt, k: int)
    requires
        area_keys_distinct(m),
        0 <= k < m.len(),
        m[k].0 == p,
    ensures
        area_has_key(m, p),
        area_key_idx(m, p) == k,
        area_val(m, p) == m[k].1 as int,
{
    assert(area_has_key(m, p));
    let k2 = area_key_idx(m, p);
    if k2 != k {
        if k2 < k {
            assert(m[k2].0 != m[k].0);
        } else {
            assert(m[k].0 != m[k2].0);
        }
    }
}

/// Adds one to the count of `o`, creating its entry if needed.
fn bump_area(areas: &mut Vec<(Pt, i64)>, o: Pt)
    requires
        area_keys_distinct(old(areas)@),
        0 <= area_val(old(areas)@, o) < 4_000_000_000,
        forall|k: int| 0 <= k < old(areas)@.len() ==> 0 <= (#[trigger] old(areas)@[k]).1,
    ensures
        area_keys_distinct(final(areas)@),
        area_val(final(areas)@, o) == area_val(old(areas)@, o) + 1,
        forall|p: Pt| p != o ==> area_val(final(areas)@, p) == area_val(old(areas)@, p),
        forall|p: Pt| area_has_key(final(areas)@, p) <==> (area_has_key(old(areas)@, p) || p == o),
        forall|k: int| 0 <= k < final(areas)@.len() ==> 0 <= (#[trigger] final(areas)@[k]).1,
{
    let ghost pre = areas@;
    let mut k: usize = 0;
    while k < areas.len()
        invariant
            pre == areas@,
            pre == old(areas)@,
            k <= areas@.len(),
            area_keys_distinct(pre),
            0 <= area_val(pre, o) < 4_000_000_000,
            forall|j: int| 0 <= j < pre.len() ==> 0 <= (#[trigger] pre[j]).1,
            forall|j: int| 0 <= j < k ==> (#[trigger] areas@[j]).0 != o,
        decreases areas@.len() - k,
    {
        if areas[k].0 == o {
            proof {
                lemma_area_key(pre, o, k as int);
            }
            let pair = areas[k];
            areas[k] = (pair.0, pair.1 + 1);
            proof {
                let post = areas@;
                assert(area_keys_distinct(post)) by {
                    assert forall|k1: int, k2: int|
                        0 <= k1 < k2 < post.len() implies (#[trigger] post[k1]).0 != (
                    #[trigger] post[k2]).0 by {
                        assert(post[k1].0 == pre[k1].0 && post[k2].0 == pre[k2].0);
                    }
                }
                lemma_area_key(post, o, k as int);
                assert forall|p: Pt| p != o implies area_val(post, p) == area_val(pre, p) by {
                    if area_has_key(pre, p) {
                        let j = area_key_idx(pre, p);
                        assert(pre[j].0 == p);
                        assert(j != k);
                        assert(post[j].0 == p && post[j].1 == pre[j].1);
                        lemma_area_key(post, p, j);
                    } else {
                        if area_has_key(post, p) {
                            let j = choose|j: int| 0 <= j < post.len() && (#[trigger] post[j]).0 == p;
                            assert(pre[j].0 == p);
                        }
                    }
                }
                assert forall|p: Pt| area_has_key(post, p) implies (area_has_key(pre, p) || p
                    == o) by {
                    let j = choose|j: int| 0 <= j < post.len() && (#[trigger] post[j]).0 == p;
                    if j != k {
                        assert(pre[j].0 == p);
                    }
                }
                assert forall|p: Pt| area_has_key(pre, p) || p == o implies area_has_key(
                    post,
                    p,
                ) by {
                    if p == o {
                        assert(post[k as int].0 == o);
                    } else {
                        let j = area_key_idx(pre, p);
                        assert(pre[j].0 == p);
                        assert(post[j].0 == p);
                    }
                }
            }
            return ;
        }
        k = k + 1;
    }
    proof {
        assert(!area_has_key(pre, o)) by {
            if area_has_key(pre, o) {
                let j = choose|j: int| 0 <= j < pre.len() && (#[trigger] pre[j]).0 == o;
            }
        }
    }
    areas.push((o, 1));
    proof {
        let post = areas@;
        assert(area_keys_distinct(post)) by {
            assert forall|k1: int, k2: int|
                0 <= k1 < k2 < post.len() implies (#[trigger] post[k1]).0 != (
            #[trigger] post[k2]).0 by {
                if k2 < pre.len() {
                    assert(post[k1].0 == pre[k1].0 && post[k2].0 == pre[k2].0);
                } else {
                    assert(post[k2].0 == o);
                    assert(post[k1].0 == pre[k1].0);
                }
            }
        }
        lemma_area_key(post, o, pre.len() as int);
        assert forall|p: Pt| p != o implies area_val(post, p) == area_val(pre, p) by {
            if area_has_key(pre, p) {
                let j = area_key_idx(pre, p);
                assert(pre[j].0 == p);
                assert(post[j].0 == p && post[j].1 == pre[j].1);
                lemma_area_key(post, p, j);
            } else {
                if area_has_key(post, p) {
                    let j = choose|j: int| 0 <= j < post.len() && (#[trigger] post[j]).0 == p;
                    if j < pre.len() {
                        assert(pre[j].0 == p);
                    }
                }
            }
        }
        assert forall|p: Pt| area_has_key(post, p) implies (area_has_key(pre, p) || p == o) by {
            let j = choose|j: int| 0 <= j < post.len() && (#[trigger] post[j]).0 == p;
            if j < pre.len() {
                assert(pre[j].0 == p);
            }
        }
        assert forall|p: Pt| area_has_key(pre, p) || p == o implies area_has_key(post, p) by {
            if p == o {
                assert(post[pre.len() as int].0 == o);
            } else {
                let j = area_key_idx(pre, p);
                assert(pre[j].0 == p);
                assert(post[j].0 == p);
            }
        }
    }
}

/// Counts, for every coordinate that owns no boundary cell, how many cells
/// strictly inside the bounding box it owns; coordinates owning nothing
/// inside get no entry.
pub fn calc_finite_areas(coords: &Vec<Pt>) -> (r: Vec<(Pt, i64)>)
    requires
        coords@.len() >= 1,
        pts_bounded(coords@),
    ensures
        area_keys_distinct(r@),
        forall|k: int|
            0 <= k < r@.len() ==> !is_infinite_owner(coords@, spec_bbox(coords@), (
            #[trigger] r@[k]).0) && r@[k].1 as int == owned_in_rect(
                coords@,
                r@[k].0,
                pts_min_y(coords@) + 1,
                pts_max_y(coords@),
                pts_min_x(coords@) + 1,
                pts_max_x(coords@),
            ) && r@[k].1 >= 1,
        forall|p: Pt|
            (!is_infinite_owner(coords@, spec_bbox(coords@), p) && owned_in_rect(
                coords@,
                p,
                pts_min_y(coords@) + 1,
                pts_max_y(coords@),
                pts_min_x(coords@) + 1,
                pts_max_x(coords@),
            ) >= 1) ==> area_has_key(r@, p),
{
    proof {
        lemma_bbox_bounded(coords@);
    }
    let bounds = bounding_box(coords);
    let inf = calc_infinite_owners(coords, &bounds);
    let mut areas: Vec<(Pt, i64)> = Vec::new();
    let ghost cs = coords@;
    let ghost b = spec_bbox(cs);
    let ghost gy0 = pts_min_y(cs) + 1;
    let ghost gx0 = pts_min_x(cs) + 1;
    let ghost gy1 = pts_max_y(cs) as int;
    let ghost gx1 = pts_max_x(cs) as int;
    if bounds.p1.y < bounds.p0.y + 1 {
        return areas;
    }
    if bounds.p1.x < bounds.p0.x + 1 {
        proof {
            assert forall|p: Pt|
                (!is_infinite_owner(cs, b, p) && owned_in_rect(cs, p, gy0, gy1, gx0, gx1)
                    >= 1) implies area_has_key(areas@, p) by {
                lemma_owned_degenerate(cs, p, gy0, gy1, gx0, gx1);
            }
        }
        return areas;
    }
    let mut y: i64 = bounds.p0.y + 1;
    while y < bounds.p1.y
        invariant
            cs == coords@,
            cs.len() >= 1,
            pts_bounded(cs),
            bounds == spec_bbox(cs),
            b == spec_bbox(cs),
            pt_bounded(bounds.p0),
            pt_bounded(bounds.p1),
            gy0 == bounds.p0.y + 1,
            gx0 == bounds.p0.x + 1,
            gy1 == bounds.p1.y as int,
            gx1 == bounds.p1.x as int,
            gx0 <= gx1,
            gy0 <= (y as int) <= gy1,
            inf@.no_duplicates(),
            forall|p: Pt| inf@.contains(p) <==> is_infinite_owner(cs, b, p),
            area_keys_distinct(areas@),
            forall|k: int| 0 <= k < areas@.len() ==> 0 <= (#[trigger] areas@[k]).1,
            forall|p: Pt|
                !is_infinite_owner(cs, b, p) ==> area_val(areas@, p) == owned_in_rect(
                    cs,
                    p,
                    gy0,
                    y as int,
                    gx0,
                    gx1,
                ),
            forall|p: Pt|
                area_has_key(areas@, p) ==> !is_infinite_owner(cs, b, p) && area_val(areas@, p)
                    >= 1,
            forall|p: Pt|
                (!is_infinite_owner(cs, b, p) && owned_in_rect(cs, p, gy0, y as int, gx0, gx1)
                    >= 1) ==> area_has_key(areas@, p),
        decreases bounds.p1.y - y,
    {
        let mut x: i64 = bounds.p0.x + 1;
        while x < bounds.p1.x
            invariant
                cs == coords@,
                cs.len() >= 1,
                pts_bounded(cs),
                pt_bounded(bounds.p0),
                pt_bounded(bounds.p1),
                gy0 == bounds.p0.y + 1,
                gx0 == bounds.p0.x + 1,
                gy1 == bounds.p1.y as int,
                gx1 == bounds.p1.x as int,
                b == spec_bbox(cs),
                gx0 <= (x as int) <= gx1,
                gy0 <= (y as int) < gy1,
                -30000 <= y <= 30000,
                inf@.no_duplicates(),
                forall|p: Pt| inf@.contains(p) <==> is_infinite_owner(cs, b, p),
                area_keys_distinct(areas@),
                forall|k: int| 0 <= k < areas@.len() ==> 0 <= (#[trigger] areas@[k]).1,
                forall|p: Pt|
                    !is_infinite_owner(cs, b, p) ==> area_val(areas@, p) == owned_in_rect(
                        cs,
                        p,
                        gy0,
                        y as int,
                        gx0,
                        gx1,
                    ) + owned_in_row(cs, p, y as int, gx0, x as int),
                forall|p: Pt|
                    area_has_key(areas@, p) ==> !is_infinite_owner(cs, b, p) && area_val(areas@, p)
                        >= 1,
                forall|p: Pt|
                    (!is_infinite_owner(cs, b, p) && owned_in_rect(cs, p, gy0, y as int, gx0, gx1)
                        + owned_in_row(cs, p, y as int, gx0, x as int) >= 1) ==> area_has_key(
                        areas@,
                        p,
                    ),
            decreases bounds.p1.x - x,
        {
            let q = Pt { x, y };
            let owner = calc_owner_of_point(&q, coords);
            match owner {
                Some(o) => {
                    if !vec_contains_pt(&inf, o) {
                        proof {
                            assert(!is_infinite_owner(cs, b, o));
                            lemma_owned_rect_bound(cs, o, gy0, y as int, gx0, gx1);
                            lemma_owned_row_bound(cs, o, y as int, gx0, x as int);
                        }
                        bump_area(&mut areas, o);
                    }
                },
                None => {},
            }
            proof {
                assert forall|p: Pt| !is_infinite_owner(cs, b, p) implies area_val(areas@, p)
                    == owned_in_rect(cs, p, gy0, y as int, gx0, gx1) + owned_in_row(
                    cs,
                    p,
                    y as int,
                    gx0,
                    x as int + 1,
                ) by {
                    assert(owned_in_row(cs, p, y as int, gx0, x as int + 1) == owned_in_row(
                        cs,
                        p,
                        y as int,
                        gx0,
                        x as int,
                    ) + if owner_of(cs, Pt { x, y }) == Option::Some(p) {
                        1int
                    } else {
                        0int
                    });
                }
            }
            x = x + 1;
        }
        proof {
            assert forall|p: Pt| !is_infinite_owner(cs, b, p) implies area_val(areas@, p)
                == owned_in_rect(cs, p, gy0, y as int + 1, gx0, gx1) by {
                assert(owned_in_rect(cs, p, gy0, y as int + 1, gx0, gx1) == owned_in_rect(
                    cs,
                    p,
                    gy0,
                    y as int,
                    gx0,
                    gx1,
                ) + owned_in_row(cs, p, y as int, gx0, gx1));
            }
        }
        y = y + 1;
    }
    proof {
        assert forall|k: int| 0 <= k < areas@.len() implies !is_infinite_owner(
            cs,
            spec_bbox(cs),
            (#[trigger] areas@[k]).0,
        ) && areas@[k].1 as int == owned_in_rect(cs, areas@[k].0, gy0, gy1, gx0, gx1)
            && areas@[k].1 >= 1 by {
            lemma_area_key(areas@, areas@[k].0, k);
        }
    }
    areas
}

/// Finds the coordinate with the largest finite claimed area, with that
/// area.
pub fn calc_largest_finite_area(coords: &Vec<Pt>) -> (r: (Pt, i64))
    requires
        coords@.len() >= 1,
        pts_bounded(coords@),
        exists|p: Pt|
            !is_infinite_owner(coords@, spec_bbox(coords@), p) && owned_in_rect(
                coords@,
                p,
                pts_min_y(coords@) + 1,
                pts_max_y(coords@),
                pts_min_x(coords@) + 1,
                pts_max_x(coords@),
            ) >= 1,
    ensures
        !is_infinite_owner(coords@, spec_bbox(coords@), r.0),
        r.1 as int == owned_in_rect(
            coords@,
            r.0,
            pts_min_y(coords@) + 1,
            pts_max_y(coords@),
            pts_min_x(coords@) + 1,
            pts_max_x(coords@),
        ),
        r.1 >= 1,
        forall|p: Pt|
            !is_infinite_owner(coords@, spec_bbox(coords@), p) ==> owned_in_rect(
                coords@,
                p,
                pts_min_y(coords@) + 1,
                pts_max_y(coords@),
                pts_min_x(coords@) + 1,
                pts_max_x(coords@),
            ) <= r.1 as int,
{
    let areas = calc_finite_areas(coords);
    proof {
        let p0 = choose|p: Pt|
            !is_infinite_owner(coords@, spec_bbox(coords@), p) && owned_in_rect(
                coords@,
                p,
                pts_min_y(coords@) + 1,
                pts_max_y(coords@),
                pts_min_x(coords@) + 1,
                pts_max_x(coords@),
            ) >= 1;
        assert(area_has_key(areas@, p0));
        let j = choose|j: int| 0 <= j < areas@.len() && (#[trigger] areas@[j]).0 == p0;
        assert(areas@.len() >= 1);
    }
    let mut best = areas[0];
    let mut k: usize = 1;
    while k < areas.len()
        invariant
            1 <= k <= areas@.len(),
            area_keys_distinct(areas@),
            forall|j: int|
                0 <= j < areas@.len() ==> !is_infinite_owner(coords@, spec_bbox(coords@), (
                #[trigger] areas@[j]).0) && areas@[j].1 as int == owned_in_rect(
                    coords@,
                    areas@[j].0,
                    pts_min_y(coords@) + 1,
                    pts_max_y(coords@),
                    pts_min_x(coords@) + 1,
                    pts_max_x(coords@),
                ) && areas@[j].1 >= 1,
            exists|j: int| 0 <= j < k && (#[trigger] areas@[j]) == best,
            forall|j: int| 0 <= j < k ==> (#[trigger] areas@[j]).1 <= best.1,
        decreases areas@.len() - k,
    {
        if areas[k].1 > best.1 {
            best = areas[k];
        }
        k = k + 1;
    }
    proof {
        assert forall|p: Pt|
            !is_infinite_owner(coords@, spec_bbox(coords@), p) implies owned_in_rect(
            coords@,
            p,
            pts_min_y(coords@) + 1,
            pts_max_y(coords@),
            pts_min_x(coords@) + 1,
            pts_max_x(coords@),
        ) <= best.1 as int by {
            if area_has_key(areas@, p) {
                let j = area_key_idx(areas@, p);
                assert(areas@[j].0 == p);
                assert(areas@[j].1 as int == owned_in_rect(
                    coords@,
                    p,
                    pts_min_y(coords@) + 1,
                    pts_max_y(coords@),
                    pts_min_x(coords@) + 1,
                    pts_max_x(coords@),
                ));
            } else {
                assert(area_val(areas@, p) == 0);
                assert(owned_in_rect(
                    coords@,
                    p,
                    pts_min_y(coords@) + 1,
                    pts_max_y(coords@),
                    pts_min_x(coords@) + 1,
                    pts_max_x(coords@),
                ) < 1);
            }
        }
        let j = choose|j: int| 0 <= j < areas@.len() && (#[trigger] areas@[j]) == best;
        assert(areas@[j].0 == best.0 && areas@[j].1 == best.1);
    }
    best
}

/// The sum of the distances from `q` to the first `k` coordinates.
pub open spec fn total_dist_pre(coords: Seq<Pt>, q: Pt, k: int) -> int
    decreases k,
{
    if k <= 0 {
        0
    } else {
        total_dist_pre(coords, q, k - 1) + dist_of(coords[k - 1], q)
    }
}

/// The sum of the distances from `q` to every coordinate.
pub open spec fn total_dist(coords: Seq<Pt>, q: Pt) -> int {
    total_dist_pre(coords, q, coords.len() as int)
}

/// Sums the distances from the point to every coordinate.
pub fn calc_total_distance(pt: &Pt, coords: &Vec<Pt>) -> (r: i64)
    requires
        pts_bounded(coords@),
        pt_bounded(*pt),
        coords@.len() <= 1_000_000_000,
    ensures
        r == total_dist(coords@, *pt),
        0 <= r <= 120000 * coords@.len(),
{
    let mut total: i64 = 0;
    let mut k: usize = 0;
    while k < coords.len()
        invariant
            k <= coords@.len(),
            coords@.len() <= 1_000_000_000,
            pts_bounded(coords@),
            pt_bounded(*pt),
            total == total_dist_pre(coords@, *pt, k as int),
            0 <= total <= 120000 * (k as int),
        decreases coords@.len() - k,
    {
        let d = coords[k].dist(pt);
        total = total + d;
        k = k + 1;
    }
    total
}

/// Every cell on the edge of the bounding box is at least `limit` away in
/// total distance, so the within-limit region cannot escape the box.
pub fn verify_area_contained_in_bounding_box(points: &Vec<Pt>, limit: i64) -> (r: bool)
    requires
        points@.len() >= 1,
        pts_bounded(points@),
        points@.len() <= 1_000_000_000,
    ensures
        r == forall|q: Pt|
            #[trigger] on_boundary(spec_bbox(points@), q) ==> limit <= total_dist(points@, q),
{
    proof {
        lemma_bbox_bounded(points@);
    }
    let bounds = bounding_box(points);
    let ghost b = spec_bbox(points@);
    let mut x: i64 = bounds.p0.x;
    while x <= bounds.p1.x
        invariant
            points@.len() >= 1,
            pts_bounded(points@),
            points@.len() <= 1_000_000_000,
            bounds == b,
            b == spec_bbox(points@),
            pt_bounded(b.p0),
            pt_bounded(b.p1),
            b.p0.x <= x,
            x <= b.p1.x + 1 || x == b.p0.x,
            forall|q: Pt|
                #[trigger] on_boundary(b, q) && q.x < x && (q.y == b.p0.y || q.y == b.p1.y)
                    ==> limit <= total_dist(points@, q),
        decreases b.p1.x + 1 - x,
    {
        let top = Pt { x, y: bounds.p0.y };
        let bot = Pt { x, y: bounds.p1.y };
        if calc_total_distance(&top, points) < limit {
            proof {
                assert(on_boundary(b, top));
            }
            return false;
        }
        if calc_total_distance(&bot, points) < limit {
            proof {
                assert(on_boundary(b, bot));
            }
            return false;
        }
        proof {
            assert forall|q: Pt|
                #[trigger] on_boundary(b, q) && q.x < x + 1 && (q.y == b.p0.y || q.y
                    == b.p1.y) implies limit <= total_dist(points@, q) by {
                if q.x == x {
                    assert(q == top || q == bot);
                }
            }
        }
        x = x + 1;
    }
    let mut y: i64 = bounds.p0.y + 1;
    while y < bounds.p1.y
        invariant
            points@.len() >= 1,
            pts_bounded(points@),
            points@.len() <= 1_000_000_000,
            bounds == b,
            b == spec_bbox(points@),
            pt_bounded(b.p0),
            pt_bounded(b.p1),
            b.p0.y + 1 <= y,
            y <= b.p1.y || y == b.p0.y + 1,
            forall|q: Pt|
                #[trigger] on_boundary(b, q) && (q.y == b.p0.y || q.y == b.p1.y) ==> limit
                    <= total_dist(points@, q),
            forall|q: Pt|
                #[trigger] on_boundary(b, q) && q.y < y ==> limit <= total_dist(points@, q),
        decreases b.p1.y - y,
    {
        let left = Pt { x: bounds.p0.x, y };
        let right = Pt { x: bounds.p1.x, y };
        if calc_total_distance(&left, points) < limit {
            proof {
                assert(on_boundary(b, left));
            }
            return false;
        }
        if calc_total_distance(&right, points) < limit {
            proof {
                assert(on_boundary(b, right));
            }
            return false;
        }
        proof {
            assert forall|q: Pt|
                #[trigger] on_boundary(b, q) && q.y < y + 1 implies limit <= total_dist(
                points@,
                q,
            ) by {
                if q.y == b.p0.y || q.y == b.p1.y {
                } else if q.y == y {
                    assert(q == left || q == right);
                }
            }
        }
        y = y + 1;
    }
    proof {
        assert forall|q: Pt| #[trigger] on_boundary(b, q) implies limit <= total_dist(
            points@,
            q,
        ) by {
            if q.y == b.p0.y || q.y == b.p1.y {
                assert(q.x < b.p1.x + 1);
            } else {
                assert(q.y < b.p1.y);
            }
        }
    }
    true
}

/// The number of cells in row `y`, columns `x0..x1`, whose total distance
/// to all coordinates is below the limit.
pub open spec fn close_in_row(coords: Seq<Pt>, limit: int, y: int, x0: int, x1: int) -> int
    decreases x1 - x0,
{
    if x1 <= x0 {
        0
    } else {
        close_in_row(coords, limit, y, x0, x1 - 1) + if total_dist(
            coords,
            Pt { x: (x1 - 1) as i64, y: y as i64 },
        ) < limit {
            1int
        } else {
            0int
        }
    }
}

/// The number of such cells over rows `y0..y1`.
pub open spec fn close_in_rect(coords: Seq<Pt>, limit: int, y0: int, y1: int, x0: int, x1: int) -> int
    decreases y1 - y0,
{
    if y1 <= y0 {
        0
    } else {
        close_in_rect(coords, limit, y0, y1 - 1, x0, x1) + close_in_row(coords, limit, y1 - 1, x0, x1)
    }
}

/// Row counts are bounded by the width.
proof fn lemma_close_row_bound(coords: Seq<Pt>, limit: int, y: int, x0: int, x1: int)
    requires
        x0 <= x1,
    ensures
        0 <= close_in_row(coords, limit, y, x0, x1) <= x1 - x0,
    decreases x1 - x0,
{
    if x0 < x1 {
        lemma_close_row_bound(coords, limit, y, x0, x1 - 1);
    }
}

/// Rectangle counts are bounded by the width per row.
proof fn lemma_close_rect_bound(coords: Seq<Pt>, limit: int, y0: int, y1: int, x0: int, x1: int)
    requires
        y0 <= y1,
        x0 <= x1,
        x1 - x0 <= 60000,
    ensures
        0 <= close_in_rect(coords, limit, y0, y1, x0, x1) <= 60000 * (y1 - y0),
    decreases y1 - y0,
{
    if y0 < y1 {
        lemma_close_rect_bound(coords, limit, y0, y1 - 1, x0, x1);
        lemma_close_row_bound(coords, limit, y1 - 1, x0, x1);
    }
}

/// Counts the cells strictly inside the bounding box whose total distance
/// to every coordinate is below the limit.
pub fn calc_area_size(points: &Vec<Pt>, limit: i64) -> (r: i64)
    requires
        points@.len() >= 1,
        pts_bounded(points@),
        points@.len() <= 1_000_000_000,
    ensures
        r == close_in_rect(
            points@,
            limit as int,
            pts_min_y(points@) + 1,
            pts_max_y(points@),
            pts_min_x(points@) + 1,
            pts_max_x(points@),
        ),
{
    proof {
        lemma_bbox_bounded(points@);
    }
    let bounds = bounding_box(points);
    let ghost gy0 = pts_min_y(points@) + 1;
    let ghost gx0 = pts_min_x(points@) + 1;
    let ghost gy1 = pts_max_y(points@) as int;
    let ghost gx1 = pts_max_x(points@) as int;
    let mut size: i64 = 0;
    let mut y: i64 = bounds.p0.y + 1;
    if bounds.p1.y < y {
        proof {
            assert(close_in_rect(points@, limit as int, gy0, gy1, gx0, gx1) == 0);
        }
        return 0;
    }
    if bounds.p1.x < bounds.p0.x + 1 {
        proof {
            lemma_close_degenerate(points@, limit as int, gy0, gy1, gx0, gx1);
        }
        return 0;
    }
    while y < bounds.p1.y
        invariant
            points@.len() >= 1,
            pts_bounded(points@),
            points@.len() <= 1_000_000_000,
            bounds == spec_bbox(points@),
            pt_bounded(bounds.p0),
            pt_bounded(bounds.p1),
            gy0 == bounds.p0.y + 1,
            gx0 == bounds.p0.x + 1,
            gy1 == bounds.p1.y as int,
            gx1 == bounds.p1.x as int,
            gx0 <= gx1,
            gy0 <= (y as int) <= gy1,
            size == close_in_rect(points@, limit as int, gy0, y as int, gx0, gx1),
            0 <= size <= 60000 * (y as int - gy0),
        decreases bounds.p1.y - y,
    {
        let mut row: i64 = 0;
        let mut x: i64 = bounds.p0.x + 1;
        while x < bounds.p1.x
            invariant
                points@.len() >= 1,
                pts_bounded(points@),
                points@.len() <= 1_000_000_000,
                pt_bounded(bounds.p0),
                pt_bounded(bounds.p1),
                gx0 == bounds.p0.x + 1,
                gx1 == bounds.p1.x as int,
                gx0 <= (x as int) <= gx1,
                -30000 <= y <= 30000,
                row == close_in_row(points@, limit as int, y as int, gx0, x as int),
                0 <= row <= x as int - gx0,
            decreases bounds.p1.x - x,
        {
            let q = Pt { x, y };
            let d = calc_total_distance(&q, points);
            if d < limit {
                row = row + 1;
            }
            x = x + 1;
        }
        proof {
            lemma_close_rect_bound(points@, limit as int, gy0, y as int + 1, gx0, gx1);
        }
        size = size + row;
        y = y + 1;
    }
    size
}

/// A window with no columns holds no cells.
proof fn lemma_close_degenerate(coords: Seq<Pt>, limit: int, y0: int, y1: int, x0: int, x1: int)
    requires
        x1 <= x0,
    ensures
        close_in_rect(coords, limit, y0, y1, x0, x1) == 0,
    decreases y1 - y0,
{
    if y0 < y1 {
        lemma_close_degenerate(coords, limit, y0, y1 - 1, x0, x1);
    }
}

} // verus!
