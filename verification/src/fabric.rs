//! Fabric claims: rectangles cut from a shared sheet, the number of square
//! inches claimed more than once, and the claim overlapping no other.

use vstd::prelude::*;

use crate::text::lit_at;
use crate::text::scan_i64;
use crate::text::scan_i64_at;
use crate::text::expect_lit;

verus! {

/// An axis-aligned rectangle, stored by its corner and exclusive far edges.
#[derive(Debug, Clone, Copy, PartialEq, Eq, Structural)]
pub struct Rectangle {
    pub x: i64,
    pub y: i64,
    pub x1: i64,
    pub y1: i64,
}

impl Rectangle {
    /// A rectangle from a corner, a width and a height.
    pub fn new(x: i64, y: i64, w: i64, h: i64) -> (r: Rectangle)
        requires
            i64::MIN <= x + w <= i64::MAX,
            i64::MIN <= y + h <= i64::MAX,
        ensures
            r == (Rectangle { x, y, x1: (x + w) as i64, y1: (y + h) as i64 }),
    {
        Rectangle { x: x, y: y, x1: x + w, y1: y + h }
    }

    /// The two rectangles share no point.
    pub open spec fn disjoint_from(self, other: Rectangle) -> bool {
        self.x >= other.x1 || self.y >= other.y1 || other.x >= self.x1 || other.y >= self.y1
    }

    /// Intersects two rectangles: nothing when they are disjoint, and
    /// otherwise a rectangle whose near corner is the greater of the two
    /// near corners and whose far edges are both the lesser of the two far
    /// `y` edges.
    pub fn intersect(&self, other: &Rectangle) -> (r: Option<Rectangle>)
        ensures
            self.disjoint_from(*other) ==> r is None,
            !self.disjoint_from(*other) ==> r == Some(
                Rectangle {
                    x: if self.x >= other.x {
                        self.x
                    } else {
                        other.x
                    },
                    y: if self.y >= other.y {
                        self.y
                    } else {
                        other.y
                    },
                    x1: if self.y1 <= other.y1 {
                        self.y1
                    } else {
                        other.y1
                    },
                    y1: if self.y1 <= other.y1 {
                        self.y1
                    } else {
                        other.y1
                    },
                },
            ),
    {
        if self.x >= other.x1 || self.y >= other.y1 || other.x >= self.x1 || other.y >= self.y1 {
            return None;
        }
        let nx = if self.x >= other.x {
            self.x
        } else {
            other.x
        };
        let ny = if self.y >= other.y {
            self.y
        } else {
            other.y
        };
        let fy = if self.y1 <= other.y1 {
            self.y1
        } else {
            other.y1
        };
        Some(Rectangle { x: nx, y: ny, x1: fy, y1: fy })
    }
}

/// A numbered claim on the fabric sheet.
#[derive(Debug, Clone, PartialEq, Eq, Structural)]
pub struct Claim {
    pub id: i64,
    pub rect: Rectangle,
}

/// The error returned for a line that does not spell a claim.
#[derive(Debug, Clone, Copy, PartialEq, Eq, Structural)]
pub enum ClaimParseError {
    Malformed,
}

/// The five numbers of a claim line of the form `#id @ x,y: wxh`, when the
/// line is exactly of that form.
pub open spec fn spec_parse_claim(s: Seq<char>) -> Option<(int, int, int, int, int)> {
    if !lit_at(s, 0, seq!['#']) {
        Option::None
    } else {
        match scan_i64_at(s, 1) {
            Option::None => Option::None,
            Option::Some((id, p1)) => if !lit_at(s, p1, seq![' ', '@', ' ']) {
                Option::None
            } else {
                match scan_i64_at(s, p1 + 3) {
                    Option::None => Option::None,
                    Option::Some((x, p2)) => if !lit_at(s, p2, seq![',']) {
                        Option::None
                    } else {
                        match scan_i64_at(s, p2 + 1) {
                            Option::None => Option::None,
                            Option::Some((y, p3)) => if !lit_at(s, p3, seq![':', ' ']) {
                                Option::None
                            } else {
                                match scan_i64_at(s, p3 + 2) {
                                    Option::None => Option::None,
                                    Option::Some((w, p4)) => if !lit_at(s, p4, seq!['x']) {
                                        Option::None
                                    } else {
                                        match scan_i64_at(s, p4 + 1) {
                                            Option::None => Option::None,
                                            Option::Some((h, p5)) => if p5 == s.len() {
                                                Option::Some((id, x, y, w, h))
                                            } else {
                                                Option::None
                                            },
                                        }
                                    },
                                }
                            },
                        }
                    },
                }
            },
        }
    }
}

/// Parses a claim line of the form `#id @ x,y: wxh`.
pub fn parse_claim(s: &str) -> (r: Result<Claim, ClaimParseError>)
    requires
        spec_parse_claim(s@) matches Some(v) ==> i64::MIN <= v.1 + v.3 <= i64::MAX && i64::MIN
            <= v.2 + v.4 <= i64::MAX,
    ensures
        (r is Ok) <==> (spec_parse_claim(s@) is Some),
        r matches Ok(c) ==> spec_parse_claim(s@) matches Some(v) && c.id == v.0 && c.rect.x == v.1
            && c.rect.y == v.2 && c.rect.x1 == v.1 + v.3 && c.rect.y1 == v.2 + v.4,
        r matches Err(e) ==> e == ClaimParseError::Malformed,
{
    proof {
        reveal_strlit("#");
        reveal_strlit(" @ ");
        reveal_strlit(",");
        reveal_strlit(": ");
        reveal_strlit("x");
        assert("#"@ =~= seq!['#']);
        assert(" @ "@ =~= seq![' ', '@', ' ']);
        assert(","@ =~= seq![',']);
        assert(": "@ =~= seq![':', ' ']);
        assert("x"@ =~= seq!['x']);
    }
    let p0 = match expect_lit(s, 0, "#") {
        Some(p) => p,
        None => {
            return Err(ClaimParseError::Malformed);
        },
    };
    let (id, p1) = match scan_i64(s, p0) {
        Some(v) => v,
        None => {
            return Err(ClaimParseError::Malformed);
        },
    };
    let p1b = match expect_lit(s, p1, " @ ") {
        Some(p) => p,
        None => {
            return Err(ClaimParseError::Malformed);
        },
    };
    let (x, p2) = match scan_i64(s, p1b) {
        Some(v) => v,
        None => {
            return Err(ClaimParseError::Malformed);
        },
    };
    let p2b = match expect_lit(s, p2, ",") {
        Some(p) => p,
        None => {
            return Err(ClaimParseError::Malformed);
        },
    };
    let (y, p3) = match scan_i64(s, p2b) {
        Some(v) => v,
        None => {
            return Err(ClaimParseError::Malformed);
        },
    };
    let p3b = match expect_lit(s, p3, ": ") {
        Some(p) => p,
        None => {
            return Err(ClaimParseError::Malformed);
        },
    };
    let (w, p4) = match scan_i64(s, p3b) {
        Some(v) => v,
        None => {
            return Err(ClaimParseError::Malformed);
        },
    };
    let p4b = match expect_lit(s, p4, "x") {
        Some(p) => p,
        None => {
            return Err(ClaimParseError::Malformed);
        },
    };
    let (h, p5) = match scan_i64(s, p4b) {
        Some(v) => v,
        None => {
            return Err(ClaimParseError::Malformed);
        },
    };
    if p5 != s.unicode_len() {
        return Err(ClaimParseError::Malformed);
    }
    Ok(Claim { id: id, rect: Rectangle::new(x, y, w, h) })
}

/// How many of the claims cover the square at `(x, y)`.
pub open spec fn covered(claims: Seq<Claim>, x: int, y: int) -> int
    decreases claims.len(),
{
    if claims.len() == 0 {
        0
    } else {
        covered(claims.drop_last(), x, y) + if claims.last().rect.x <= x < claims.last().rect.x1
            && claims.last().rect.y <= y < claims.last().rect.y1 {
            1int
        } else {
            0int
        }
    }
}

/// The number of squares in row `y`, columns `x0..x1`, claimed at least
/// twice.
pub open spec fn overlaps_in_row(claims: Seq<Claim>, y: int, x0: int, x1: int) -> int
    decreases x1 - x0,
{
    if x1 <= x0 {
        0
    } else {
        overlaps_in_row(claims, y, x0, x1 - 1) + if covered(claims, x1 - 1, y) >= 2 {
            1int
        } else {
            0int
        }
    }
}

/// The number of squares in rows `y0..y1`, columns `x0..x1`, claimed at
/// least twice.
pub open spec fn overlaps_in_rect(claims: Seq<Claim>, y0: int, y1: int, x0: int, x1: int) -> int
    decreases y1 - y0,
{
    if y1 <= y0 {
        0
    } else {
        overlaps_in_rect(claims, y0, y1 - 1, x0, x1) + overlaps_in_row(claims, y1 - 1, x0, x1)
    }
}

/// All coordinates of every claim lie within plus or minus thirty
/// thousand.
pub open spec fn claims_bounded(claims: Seq<Claim>) -> bool {
    forall|k: int|
        0 <= k < claims.len() ==> {
            let r = (#[trigger] claims[k]).rect;
            -30000 <= r.x <= 30000 && -30000 <= r.y <= 30000 && -30000 <= r.x1 <= 30000
                && -30000 <= r.y1 <= 30000
        }
}

/// Row overlap counts are bounded by the row width.
proof fn lemma_overlaps_row_bound(claims: Seq<Claim>, y: int, x0: int, x1: int)
    requires
        x0 <= x1,
    ensures
        0 <= overlaps_in_row(claims, y, x0, x1) <= x1 - x0,
    decreases x1 - x0,
{
    if x0 < x1 {
        lemma_overlaps_row_bound(claims, y, x0, x1 - 1);
    }
}

/// Rectangle overlap counts are bounded by the window width per row.
proof fn lemma_overlaps_rect_bound(claims: Seq<Claim>, y0: int, y1: int, x0: int, x1: int)
    requires
        y0 <= y1,
        x0 <= x1,
        x1 - x0 <= 60000,
    ensures
        0 <= overlaps_in_rect(claims, y0, y1, x0, x1) <= 60000 * (y1 - y0),
    decreases y1 - y0,
{
    if y0 < y1 {
        lemma_overlaps_rect_bound(claims, y0, y1 - 1, x0, x1);
        lemma_overlaps_row_bound(claims, y0, x0, x1);
        lemma_overlaps_row_bound(claims, y1 - 1, x0, x1);
    }
}

/// Counts how many of the claims cover the square at `(x, y)`.
fn covered_count(claims: &Vec<Claim>, x: i64, y: i64) -> (n: usize)
    ensures
        n == covered(claims@, x as int, y as int),
{
    let mut n: usize = 0;
    let mut k: usize = 0;
    while k < claims.len()
        invariant
            k <= claims@.len(),
            n == covered(claims@.take(k as int), x as int, y as int),
            n <= k,
        decreases claims@.len() - k,
    {
        proof {
            assert(claims@.take(k + 1).drop_last() =~= claims@.take(k as int));
            assert(claims@.take(k + 1).last() == claims@[k as int]);
        }
        let c = &claims[k];
        if c.rect.x <= x && x < c.rect.x1 && c.rect.y <= y && y < c.rect.y1 {
            n = n + 1;
        }
        k = k + 1;
    }
    proof {
        assert(claims@.take(claims@.len() as int) =~= claims@);
    }
    n
}

/// The least near-corner `x` among the claims.
pub open spec fn bb_min_x(claims: Seq<Claim>) -> int
    decreases claims.len(),
{
    if claims.len() == 0 {
        0
    } else if claims.len() == 1 {
        claims[0].rect.x as int
    } else {
        let m = bb_min_x(claims.drop_last());
        if claims.last().rect.x < m {
            claims.last().rect.x as int
        } else {
            m
        }
    }
}

/// The least near-corner `y` among the claims.
pub open spec fn bb_min_y(claims: Seq<Claim>) -> int
    decreases claims.len(),
{
    if claims.len() == 0 {
        0
    } else if claims.len() == 1 {
        claims[0].rect.y as int
    } else {
        let m = bb_min_y(claims.drop_last());
        if claims.last().rect.y < m {
            claims.last().rect.y as int
        } else {
            m
        }
    }
}

/// The greatest far edge `x1` among the claims.
pub open spec fn bb_max_x(claims: Seq<Claim>) -> int
    decreases claims.len(),
{
    if claims.len() == 0 {
        0
    } else if claims.len() == 1 {
        claims[0].rect.x1 as int
    } else {
        let m = bb_max_x(claims.drop_last());
        if claims.last().rect.x1 > m {
            claims.last().rect.x1 as int
        } else {
            m
        }
    }
}

/// The greatest far edge `y1` among the claims.
pub open spec fn bb_max_y(claims: Seq<Claim>) -> int
    decreases claims.len(),
{
    if claims.len() == 0 {
        0
    } else if claims.len() == 1 {
        claims[0].rect.y1 as int
    } else {
        let m = bb_max_y(claims.drop_last());
        if claims.last().rect.y1 > m {
            claims.last().rect.y1 as int
        } else {
            m
        }
    }
}

/// The bounding box edges stay within the claims' coordinate bounds.
proof fn lemma_bb_bounded(claims: Seq<Claim>)
    requires
        claims_bounded(claims),
        claims.len() >= 1,
    ensures
        -30000 <= bb_min_x(claims) <= 30000,
        -30000 <= bb_min_y(claims) <= 30000,
        -30000 <= bb_max_x(claims) <= 30000,
        -30000 <= bb_max_y(claims) <= 30000,
    decreases claims.len(),
{
    assert(claims_bounded(claims.drop_last())) by {
        assert forall|k: int| 0 <= k < claims.drop_last().len() implies {
            let r = (#[trigger] claims.drop_last()[k]).rect;
            -30000 <= r.x <= 30000 && -30000 <= r.y <= 30000 && -30000 <= r.x1 <= 30000
                && -30000 <= r.y1 <= 30000
        } by {
            assert(claims.drop_last()[k] == claims[k]);
            assert(-1000000 <= claims[k].rect.x <= 1000000);
        }
    }
    if claims.len() > 1 {
        lemma_bb_bounded(claims.drop_last());
    }
    assert(-30000 <= claims[claims.len() - 1].rect.x <= 30000);
}

/// Counts the squares of the sheet claimed by at least two claims,
/// scanning the bounding box of all claims.
pub fn num_overlaps(claims: &Vec<Claim>) -> (r: usize)
    requires
        claims_bounded(claims@),
    ensures
        claims@.len() == 0 ==> r == 0,
        claims@.len() >= 1 ==> r == overlaps_in_rect(
            claims@,
            bb_min_y(claims@),
            bb_max_y(claims@),
            bb_min_x(claims@),
            bb_max_x(claims@),
        ),
{
    if claims.len() == 0 {
        return 0;
    }
    let mut min_x = claims[0].rect.x;
    let mut min_y = claims[0].rect.y;
    let mut max_x = claims[0].rect.x1;
    let mut max_y = claims[0].rect.y1;
    let mut k: usize = 1;
    proof {
        assert(claims@.take(1).len() == 1);
        assert(claims@.take(1)[0] == claims@[0]);
    }
    while k < claims.len()
        invariant
            claims_bounded(claims@),
            1 <= k <= claims@.len(),
            min_x as int == bb_min_x(claims@.take(k as int)),
            min_y as int == bb_min_y(claims@.take(k as int)),
            max_x as int == bb_max_x(claims@.take(k as int)),
            max_y as int == bb_max_y(claims@.take(k as int)),
        decreases claims@.len() - k,
    {
        proof {
            assert(claims@.take(k + 1).drop_last() =~= claims@.take(k as int));
            assert(claims@.take(k + 1).last() == claims@[k as int]);
        }
        let c = &claims[k];
        if c.rect.x < min_x {
            min_x = c.rect.x;
        }
        if c.rect.y < min_y {
            min_y = c.rect.y;
        }
        if c.rect.x1 > max_x {
            max_x = c.rect.x1;
        }
        if c.rect.y1 > max_y {
            max_y = c.rect.y1;
        }
        k = k + 1;
    }
    proof {
        assert(claims@.take(claims@.len() as int) =~= claims@);
        lemma_bb_bounded(claims@);
    }
    if max_x < min_x {
        max_x = min_x;
    }
    if max_y < min_y {
        max_y = min_y;
    }
    let ghost gy0 = min_y as int;
    let ghost gy1 = max_y as int;
    let ghost gx0 = min_x as int;
    let ghost gx1 = max_x as int;
    let mut count: usize = 0;
    let mut y: i64 = min_y;
    while y < max_y
        invariant
            claims_bounded(claims@),
            gy0 <= y as int <= gy1,
            gy0 == min_y as int,
            gy1 == max_y as int,
            gx0 == min_x as int,
            gx1 == max_x as int,
            min_x <= max_x,
            -30000 <= min_x <= 30000,
            -30000 <= min_y <= 30000,
            -30000 <= max_x <= 30000,
            -30000 <= max_y <= 30000,
            count == overlaps_in_rect(claims@, gy0, y as int, gx0, gx1),
            0 <= count <= 60000 * (y as int - gy0),
        decreases max_y - y,
    {
        let mut x: i64 = min_x;
        let mut row_count: usize = 0;
        while x < max_x
            invariant
                claims_bounded(claims@),
                gx0 <= x as int <= gx1,
                gx0 == min_x as int,
                gx1 == max_x as int,
                -30000 <= min_x <= 30000,
                -30000 <= max_x <= 30000,
                -30000 <= y < 30000 + 1,
                row_count == overlaps_in_row(claims@, y as int, gx0, x as int),
                0 <= row_count <= x as int - gx0,
            decreases max_x - x,
        {
            let c = covered_count(claims, x, y);
            if c >= 2 {
                row_count = row_count + 1;
            }
            x = x + 1;
        }
        proof {
            lemma_overlaps_rect_bound(claims@, gy0, y as int + 1, gx0, gx1);
        }
        count = count + row_count;
        y = y + 1;
    }
    proof {
        if bb_max_y(claims@) < bb_min_y(claims@) {
            assert(gy1 == gy0);
            assert(overlaps_in_rect(claims@, gy0, gy1, gx0, gx1) == 0);
            assert(overlaps_in_rect(
                claims@,
                bb_min_y(claims@),
                bb_max_y(claims@),
                bb_min_x(claims@),
                bb_max_x(claims@),
            ) == 0);
        } else if bb_max_x(claims@) < bb_min_x(claims@) {
            assert(gx1 == gx0);
            lemma_overlaps_degenerate(claims@, gy0, gy1, gx0, gx1);
            lemma_overlaps_degenerate(
                claims@,
                bb_min_y(claims@),
                bb_max_y(claims@),
                bb_min_x(claims@),
                bb_max_x(claims@),
            );
        }
    }
    count
}

/// A window with no columns holds no overlapped squares.
proof fn lemma_overlaps_degenerate(claims: Seq<Claim>, y0: int, y1: int, x0: int, x1: int)
    requires
        x1 <= x0,
    ensures
        overlaps_in_rect(claims, y0, y1, x0, x1) == 0,
    decreases y1 - y0,
{
    if y0 < y1 {
        lemma_overlaps_degenerate(claims, y0, y1 - 1, x0, x1);
    }
}

/// The claim at index `i` intersects no other claim with a different
/// value.
pub open spec fn claim_clear(claims: Seq<Claim>, i: int) -> bool {
    forall|j: int|
        0 <= j < claims.len() && claims[j] != claims[i] ==> (#[trigger] claims[i].rect).disjoint_from(
            claims[j].rect,
        )
}

/// Finds the id of the first claim that overlaps no other claim; two
/// claims equal in every field do not count as overlapping each other.
pub fn find_non_overlapping(claims: &Vec<Claim>) -> (r: Option<i64>)
    ensures
        (r is Some) <==> exists|i: int| 0 <= i < claims@.len() && #[trigger] claim_clear(claims@, i),
        r matches Some(id) ==> exists|i: int|
            0 <= i < claims@.len() && #[trigger] claim_clear(claims@, i) && id == claims@[i].id && (
            forall|i2: int| 0 <= i2 < i ==> !claim_clear(claims@, i2)),
{
    let mut i: usize = 0;
    while i < claims.len()
        invariant
            i <= claims@.len(),
            forall|i2: int| 0 <= i2 < i ==> !claim_clear(claims@, i2),
        decreases claims@.len() - i,
    {
        let mut clear = true;
        let mut j: usize = 0;
        while j < claims.len() && clear
            invariant
                i < claims@.len(),
                j <= claims@.len(),
                clear ==> forall|j2: int|
                    0 <= j2 < j && claims@[j2] != claims@[i as int] ==> (
                    #[trigger] claims@[i as int].rect).disjoint_from(claims@[j2].rect),
                !clear ==> exists|j2: int|
                    0 <= j2 < claims@.len() && claims@[j2] != claims@[i as int] && !(
                    #[trigger] claims@[i as int].rect).disjoint_from(claims@[j2].rect),
            decreases claims@.len() - j,
        {
            let same = claims[i] == claims[j];
            if !same {
                let inter = claims[i].rect.intersect(&claims[j].rect);
                if inter.is_some() {
                    clear = false;
                }
            }
            j = j + 1;
        }
        if clear {
            proof {
                assert(claim_clear(claims@, i as int));
            }
            return Some(claims[i].id);
        }
        proof {
            assert(!claim_clear(claims@, i as int));
        }
        i = i + 1;
    }
    None
}

} // verus!
