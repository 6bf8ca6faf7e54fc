//! Moving lights: points with velocities read from observation lines, and
//! the bounding box of their positions.

use vstd::prelude::*;

use crate::territory::Pt;
use crate::text::expect_lit;
use crate::text::lit_at;
use crate::text::scan_i64;
use crate::text::scan_i64_at;

verus! {

/// A light: a position and a velocity per time step.
#[derive(Debug, Clone, Copy, PartialEq, Eq, Structural)]
pub struct Light {
    pub pos: Pt,
    pub velocity: Pt,
}

/// The error returned for a line that does not spell a reading.
#[derive(Debug, Clone, Copy, PartialEq, Eq, Structural)]
pub enum ReadingParseError {
    Malformed,
}

/// The first position at or after `i` holding no space.
pub open spec fn space_run_end(s: Seq<char>, i: int) -> int
    decreases s.len() - i,
{
    if 0 <= i < s.len() && s[i] == ' ' {
        space_run_end(s, i + 1)
    } else {
        i
    }
}

/// The run of spaces spans from `i` to its end.
proof fn lemma_space_run(s: Seq<char>, i: int)
    requires
        0 <= i <= s.len(),
    ensures
        i <= space_run_end(s, i) <= s.len(),
    decreases s.len() - i,
{
    if 0 <= i < s.len() && s[i] == ' ' {
        lemma_space_run(s, i + 1);
    }
}

/// Steps past any spaces at `from`.
fn skip_spaces(s: &str, from: usize) -> (r: usize)
    requires
        from <= s@.len(),
    ensures
        r as int == space_run_end(s@, from as int),
        from <= r <= s@.len(),
{
    let len = s.unicode_len();
    let mut i = from;
    while i < len && (s.get_char(i) as u32) == (' ' as u32)
        invariant
            from <= i <= len,
            len == s@.len(),
            space_run_end(s@, from as int) == space_run_end(s@, i as int),
        decreases len - i,
    {
        proof {
            vstd::utf8::char_u32_cast(s@[i as int], s@[i as int] as u32);
            vstd::utf8::char_u32_cast(' ', ' ' as u32);
            assert(s@[i as int] == ' ');
        }
        i = i + 1;
    }
    proof {
        if i < len {
            vstd::utf8::char_u32_cast(s@[i as int], s@[i as int] as u32);
            vstd::utf8::char_u32_cast(' ', ' ' as u32);
        }
        lemma_space_run(s@, i as int);
    }
    i
}

/// A spaced number: any spaces, then a signed number, read from `i`.
pub open spec fn scan_spaced_i64_at(s: Seq<char>, i: int) -> Option<(int, int)> {
    scan_i64_at(s, space_run_end(s, i))
}

/// The four numbers of a reading line of the form
/// `position=<x, y> velocity=<dx, dy>`, with any spaces before each
/// number.
pub open spec fn spec_parse_reading(s: Seq<char>) -> Option<(int, int, int, int)> {
    let header = seq!['p', 'o', 's', 'i', 't', 'i', 'o', 'n', '=', '<'];
    let middle = seq![' ', 'v', 'e', 'l', 'o', 'c', 'i', 't', 'y', '=', '<'];
    if !lit_at(s, 0, header) {
        Option::None
    } else {
        match scan_spaced_i64_at(s, 10) {
            Option::None => Option::None,
            Option::Some((px, p1)) => if !lit_at(s, p1, seq![',']) {
                Option::None
            } else {
                match scan_spaced_i64_at(s, p1 + 1) {
                    Option::None => Option::None,
                    Option::Some((py, p2)) => if !(lit_at(s, p2, seq!['>']) && lit_at(
                        s,
                        p2 + 1,
                        middle,
                    )) {
                        Option::None
                    } else {
                        match scan_spaced_i64_at(s, p2 + 12) {
                            Option::None => Option::None,
                            Option::Some((vx, p3)) => if !lit_at(s, p3, seq![',']) {
                                Option::None
                            } else {
                                match scan_spaced_i64_at(s, p3 + 1) {
                                    Option::None => Option::None,
                                    Option::Some((vy, p4)) => if lit_at(s, p4, seq!['>']) && p4 + 1
                                        == s.len() {
                                        Option::Some((px, py, vx, vy))
                                    } else {
                                        Option::None
                                    },
                                }
                            },
                        }
                    },
                }
            },
        }
    }
}

/// Reads a number, stepping past any spaces before it.
fn scan_spaced(s: &str, from: usize) -> (r: Option<(i64, usize)>)
    requires
        from <= s@.len(),
    ensures
        (r is Some) <==> (scan_spaced_i64_at(s@, from as int) is Some),
        r matches Some(p) ==> scan_spaced_i64_at(s@, from as int) == Option::Some(
            (p.0 as int, p.1 as int),
        ) && p.1 <= s@.len(),
{
    let st = skip_spaces(s, from);
    scan_i64(s, st)
}

/// Parses a reading line of the form `position=<x, y> velocity=<dx, dy>`.
pub fn parse_reading(s: &str) -> (r: Result<Light, ReadingParseError>)
    ensures
        (r is Ok) <==> (spec_parse_reading(s@) is Some),
        r matches Ok(l) ==> spec_parse_reading(s@) matches Some(v) && l.pos.x == v.0 && l.pos.y
            == v.1 && l.velocity.x == v.2 && l.velocity.y == v.3,
        r matches Err(e) ==> e == ReadingParseError::Malformed,
{
    proof {
        reveal_strlit("position=<");
        reveal_strlit(" velocity=<");
        reveal_strlit(",");
        reveal_strlit(">");
        assert("position=<"@ =~= seq!['p', 'o', 's', 'i', 't', 'i', 'o', 'n', '=', '<']);
        assert(" velocity=<"@ =~= seq![' ', 'v', 'e', 'l', 'o', 'c', 'i', 't', 'y', '=', '<']);
        assert(","@ =~= seq![',']);
        assert(">"@ =~= seq!['>']);
    }
    let p0 = match expect_lit(s, 0, "position=<") {
        Some(p) => p,
        None => {
            return Err(ReadingParseError::Malformed);
        },
    };
    let (px, p1) = match scan_spaced(s, p0) {
        Some(v) => v,
        None => {
            return Err(ReadingParseError::Malformed);
        },
    };
    let p1b = match expect_lit(s, p1, ",") {
        Some(p) => p,
        None => {
            return Err(ReadingParseError::Malformed);
        },
    };
    let (py, p2) = match scan_spaced(s, p1b) {
        Some(v) => v,
        None => {
            return Err(ReadingParseError::Malformed);
        },
    };
    let p2b = match expect_lit(s, p2, ">") {
        Some(p) => p,
        None => {
            return Err(ReadingParseError::Malformed);
        },
    };
    let p2c = match expect_lit(s, p2b, " velocity=<") {
        Some(p) => p,
        None => {
            return Err(ReadingParseError::Malformed);
        },
    };
    let (vx, p3) = match scan_spaced(s, p2c) {
        Some(v) => v,
        None => {
            return Err(ReadingParseError::Malformed);
        },
    };
    let p3b = match expect_lit(s, p3, ",") {
        Some(p) => p,
        None => {
            return Err(ReadingParseError::Malformed);
        },
    };
    let (vy, p4) = match scan_spaced(s, p3b) {
        Some(v) => v,
        None => {
            return Err(ReadingParseError::Malformed);
        },
    };
    let p4b = match expect_lit(s, p4, ">") {
        Some(p) => p,
        None => {
            return Err(ReadingParseError::Malformed);
        },
    };
    if p4b != s.unicode_len() {
        return Err(ReadingParseError::Malformed);
    }
    Ok(Light { pos: Pt { x: px, y: py }, velocity: Pt { x: vx, y: vy } })
}

/// Moves every light one time step along its velocity.
pub fn advance_lights(lights: &mut Vec<Light>)
    requires
        forall|k: int|
            0 <= k < old(lights)@.len() ==> {
                let l = #[trigger] old(lights)@[k];
                i64::MIN <= l.pos.x + l.velocity.x <= i64::MAX && i64::MIN <= l.pos.y
                    + l.velocity.y <= i64::MAX
            },
    ensures
        final(lights)@.len() == old(lights)@.len(),
        forall|k: int|
            0 <= k < old(lights)@.len() ==> (#[trigger] final(lights)@[k]) == (Light {
                pos: Pt {
                    x: (old(lights)@[k].pos.x + old(lights)@[k].velocity.x) as i64,
                    y: (old(lights)@[k].pos.y + old(lights)@[k].velocity.y) as i64,
                },
                velocity: old(lights)@[k].velocity,
            }),
{
    let mut k: usize = 0;
    while k < lights.len()
        invariant
            k <= lights@.len(),
            lights@.len() == old(lights)@.len(),
            forall|j: int| k <= j < lights@.len() ==> (#[trigger] lights@[j]) == old(lights)@[j],
            forall|j: int|
                0 <= j < k ==> (#[trigger] lights@[j]) == (Light {
                    pos: Pt {
                        x: (old(lights)@[j].pos.x + old(lights)@[j].velocity.x) as i64,
                        y: (old(lights)@[j].pos.y + old(lights)@[j].velocity.y) as i64,
                    },
                    velocity: old(lights)@[j].velocity,
                }),
            forall|j: int|
                0 <= j < old(lights)@.len() ==> {
                    let l = #[trigger] old(lights)@[j];
                    i64::MIN <= l.pos.x + l.velocity.x <= i64::MAX && i64::MIN <= l.pos.y
                        + l.velocity.y <= i64::MAX
                },
        decreases lights@.len() - k,
    {
        let l = lights[k];
        lights[k] = Light {
            pos: Pt { x: l.pos.x + l.velocity.x, y: l.pos.y + l.velocity.y },
            velocity: l.velocity,
        };
        k = k + 1;
    }
}

/// The least light `x` position before index `k`, starting from the
/// largest representable value.
pub open spec fn lights_min_x(lights: Seq<Light>, k: int) -> int
    decreases k,
{
    if k <= 0 {
        i64::MAX as int
    } else {
        let m = lights_min_x(lights, k - 1);
        if lights[k - 1].pos.x < m {
            lights[k - 1].pos.x as int
        } else {
            m
        }
    }
}

/// The least light `y` position before index `k`.
pub open spec fn lights_min_y(lights: Seq<Light>, k: int) -> int
    decreases k,
{
    if k <= 0 {
        i64::MAX as int
    } else {
        let m = lights_min_y(lights, k - 1);
        if lights[k - 1].pos.y < m {
            lights[k - 1].pos.y as int
        } else {
            m
        }
    }
}

/// The greatest light `x` position before index `k`, starting from the
/// smallest representable value.
pub open spec fn lights_max_x(lights: Seq<Light>, k: int) -> int
    decreases k,
{
    if k <= 0 {
        i64::MIN as int
    } else {
        let m = lights_max_x(lights, k - 1);
        if lights[k - 1].pos.x > m {
            lights[k - 1].pos.x as int
        } else {
            m
        }
    }
}

/// The greatest light `y` position before index `k`.
pub open spec fn lights_max_y(lights: Seq<Light>, k: int) -> int
    decreases k,
{
    if k <= 0 {
        i64::MIN as int
    } else {
        let m = lights_max_y(lights, k - 1);
        if lights[k - 1].pos.y > m {
            lights[k - 1].pos.y as int
        } else {
            m
        }
    }
}

/// The corners of the bounding box of the light positions: the least
/// coordinates and the greatest, starting from the extreme representable
/// values for an empty list.
pub fn calc_bounding_box(lights: &Vec<Light>) -> (r: (Pt, Pt))
    ensures
        r.0.x as int == lights_min_x(lights@, lights@.len() as int),
        r.0.y as int == lights_min_y(lights@, lights@.len() as int),
        r.1.x as int == lights_max_x(lights@, lights@.len() as int),
        r.1.y as int == lights_max_y(lights@, lights@.len() as int),
{
    let mut min = Pt { x: i64::MAX, y: i64::MAX };
    let mut max = Pt { x: i64::MIN, y: i64::MIN };
    let mut k: usize = 0;
    while k < lights.len()
        invariant
            k <= lights@.len(),
            min.x as int == lights_min_x(lights@, k as int),
            min.y as int == lights_min_y(lights@, k as int),
            max.x as int == lights_max_x(lights@, k as int),
            max.y as int == lights_max_y(lights@, k as int),
        decreases lights@.len() - k,
    {
        let l = lights[k];
        if l.pos.x < min.x {
            min.x = l.pos.x;
        }
        if l.pos.y < min.y {
            min.y = l.pos.y;
        }
        if l.pos.x > max.x {
            max.x = l.pos.x;
        }
        if l.pos.y > max.y {
            max.y = l.pos.y;
        }
        k = k + 1;
    }
    (min, max)
}

/// Every light position is bounded and the box corners surround them.
pub open spec fn lights_bounded(lights: Seq<Light>) -> bool {
    forall|k: int|
        0 <= k < lights.len() ==> -30000 <= (#[trigger] lights[k]).pos.x <= 30000 && -30000
            <= lights[k].pos.y <= 30000
}

/// The fold bounds every position, and for a nonempty list the corners
/// are themselves positions' coordinates, so the box is well formed.
proof fn lemma_lights_box(lights: Seq<Light>, k: int)
    requires
        0 <= k <= lights.len(),
        lights_bounded(lights),
    ensures
        forall|j: int|
            0 <= j < k ==> lights_min_x(lights, k) <= (#[trigger] lights[j]).pos.x
                && lights_min_y(lights, k) <= lights[j].pos.y && lights[j].pos.x <= lights_max_x(
                lights,
                k,
            ) && lights[j].pos.y <= lights_max_y(lights, k),
        k >= 1 ==> -30000 <= lights_min_x(lights, k) <= 30000 && -30000 <= lights_min_y(lights, k)
            <= 30000 && -30000 <= lights_max_x(lights, k) <= 30000 && -30000 <= lights_max_y(
            lights,
            k,
        ) <= 30000 && lights_min_x(lights, k) <= lights_max_x(lights, k) && lights_min_y(
            lights,
            k,
        ) <= lights_max_y(lights, k),
    decreases k,
{
    if k > 0 {
        lemma_lights_box(lights, k - 1);
        assert(lights_min_x(lights, 0) == i64::MAX as int);
        assert(lights_min_y(lights, 0) == i64::MAX as int);
        assert(lights_max_x(lights, 0) == i64::MIN as int);
        assert(lights_max_y(lights, 0) == i64::MIN as int);
        assert(-30000 <= lights[k - 1].pos.x <= 30000 && -30000 <= lights[k - 1].pos.y <= 30000);
    }
}

/// Distinct cells of the picture have distinct buffer positions.
proof fn lemma_cell_index(yy: int, xx: int, y0: int, x0: int, w: int)
    requires
        0 <= xx < w,
        0 <= x0 < w,
        yy * w + xx == y0 * w + x0,
    ensures
        yy == y0 && xx == x0,
{
    assert(yy == y0 && xx == x0) by (nonlinear_arith)
        requires
            0 <= xx < w,
            0 <= x0 < w,
            yy * w + xx == y0 * w + x0,
    ;
}

/// The character of the rendered picture at column `xx` of row `yy`,
/// where each row is `w` cells and a newline.
pub open spec fn rendered_cell(r: Seq<char>, w: int, yy: int, xx: int) -> char {
    r[yy * (w + 1) + xx]
}

/// The character of the cell buffer at column `xx` of row `yy` of a grid
/// `w` cells wide.
spec fn grid_cell(b: Seq<char>, w: int, yy: int, xx: int) -> char {
    b[yy * w + xx]
}

/// Some light, shifted by the box corner, sits on the cell `(xx, yy)`.
pub open spec fn lit_at_cell(lights: Seq<Light>, minx: int, miny: int, xx: int, yy: int) -> bool {
    exists|k: int|
        0 <= k < lights.len() && ((#[trigger] lights[k]).pos.x as int) - minx == xx && (
        lights[k].pos.y as int) - miny == yy
}

/// Draws the lights: one row of `#` and `.` cells per grid row of the
/// bounding box, each row ended by a newline.
pub fn render(lights: &Vec<Light>) -> (r: String)
    requires
        lights@.len() >= 1,
        lights_bounded(lights@),
    ensures
        ({
            let minx = lights_min_x(lights@, lights@.len() as int);
            let miny = lights_min_y(lights@, lights@.len() as int);
            let w = lights_max_x(lights@, lights@.len() as int) - minx + 1;
            let h = lights_max_y(lights@, lights@.len() as int) - miny + 1;
            &&& r@.len() == h * (w + 1)
            &&& forall|yy: int, xx: int|
                0 <= yy < h && 0 <= xx < w ==> #[trigger] rendered_cell(r@, w, yy, xx) == (
                if lit_at_cell(lights@, minx, miny, xx, yy) {
                    '#'
                } else {
                    '.'
                })
            &&& forall|yy: int| 0 <= yy < h ==> #[trigger] rendered_cell(r@, w, yy, w) == '\n'
        }),
{
    proof {
        lemma_lights_box(lights@, lights@.len() as int);
    }
    let (min, max) = calc_bounding_box(lights);
    let h = (max.y - min.y + 1) as usize;
    let w = (max.x - min.x + 1) as usize;
    let ghost minx = min.x as int;
    let ghost miny = min.y as int;
    proof {
        assert(h * w <= 60001 * 60001) by (nonlinear_arith)
            requires
                1 <= h <= 60001,
                1 <= w <= 60001,
        ;
    }
    let mut buf: Vec<char> = vec!['.'; h * w];
    proof {
        assert forall|yy: int, xx: int|
            0 <= yy < h && 0 <= xx < w implies #[trigger] grid_cell(buf@, w as int, yy, xx)
            == '.' by {
            assert(0 <= yy * (w as int) + xx < (h as int) * (w as int)) by (nonlinear_arith)
                requires
                    0 <= yy < h as int,
                    0 <= xx < w as int,
            ;
        }
    }
    let mut k: usize = 0;
    while k < lights.len()
        invariant
            k <= lights@.len(),
            lights@.len() >= 1,
            lights_bounded(lights@),
            1 <= w <= 60001,
            1 <= h <= 60001,
            minx == lights_min_x(lights@, lights@.len() as int),
            miny == lights_min_y(lights@, lights@.len() as int),
            min.x as int == minx,
            min.y as int == miny,
            w == lights_max_x(lights@, lights@.len() as int) - minx + 1,
            h == lights_max_y(lights@, lights@.len() as int) - miny + 1,
            buf@.len() == h * w,
            forall|i: int| 0 <= i < buf@.len() ==> buf@[i] == '#' || (#[trigger] buf@[i]) == '.',
            forall|yy: int, xx: int|
                0 <= yy < h && 0 <= xx < w ==> #[trigger] grid_cell(buf@, w as int, yy, xx) == (
                if exists|j: int|
                    0 <= j < k && ((#[trigger] lights@[j]).pos.x as int) - minx == xx && (
                    lights@[j].pos.y as int) - miny == yy {
                    '#'
                } else {
                    '.'
                }),
        decreases lights@.len() - k,
    {
        proof {
            lemma_lights_box(lights@, lights@.len() as int);
            assert(lights@.contains(lights@[k as int])) by {
                assert(lights@[k as int] == lights@[k as int]);
            }
        }
        let l = lights[k];
        proof {
            assert(minx <= l.pos.x as int <= minx + (w as int) - 1 && miny <= l.pos.y as int
                <= miny + (h as int) - 1) by {
                assert(lights_min_x(lights@, lights@.len() as int) <= (
                #[trigger] lights@[k as int]).pos.x);
            }
            assert(-30000 <= l.pos.x <= 30000 && -30000 <= l.pos.y <= 30000);
            assert(-30000 <= min.x <= 30000 && -30000 <= min.y <= 30000);
        }
        let x0 = (l.pos.x - min.x) as usize;
        let y0 = (l.pos.y - min.y) as usize;
        proof {
            assert((y0 as int) * (w as int) + (x0 as int) < (h as int) * (w as int))
                by (nonlinear_arith)
                requires
                    0 <= (x0 as int) < w as int,
                    0 <= (y0 as int) < h as int,
            ;
            assert((h as int) * (w as int) <= 3600120001) by (nonlinear_arith)
                requires
                    1 <= h as int <= 60001,
                    1 <= w as int <= 60001,
            ;
        }
        let ghost old_buf = buf@;
        buf[y0 * w + x0] = '#';
        proof {
            assert forall|yy: int, xx: int|
                0 <= yy < h && 0 <= xx < w implies #[trigger] grid_cell(buf@, w as int, yy, xx)
                == (if exists|j: int|
                0 <= j < k + 1 && ((#[trigger] lights@[j]).pos.x as int) - minx == xx && (
                lights@[j].pos.y as int) - miny == yy {
                '#'
            } else {
                '.'
            }) by {
                assert(0 <= yy * (w as int) + xx < buf@.len()) by (nonlinear_arith)
                    requires
                        0 <= xx < w as int,
                        0 <= yy < h as int,
                        buf@.len() == (h as int) * (w as int),
                ;
                if yy * (w as int) + xx == (y0 as int) * (w as int) + (x0 as int) {
                    lemma_cell_index(yy, xx, y0 as int, x0 as int, w as int);
                    assert(grid_cell(buf@, w as int, yy, xx) == '#');
                    assert(((lights@[k as int]).pos.x as int) - minx == xx && ((
                    lights@[k as int]).pos.y as int) - miny == yy);
                } else {
                    assert(buf@[yy * (w as int) + xx] == old_buf[yy * (w as int) + xx]);
                    assert(grid_cell(buf@, w as int, yy, xx) == grid_cell(
                        old_buf,
                        w as int,
                        yy,
                        xx,
                    ));
                    if exists|j: int|
                        0 <= j < k + 1 && ((#[trigger] lights@[j]).pos.x as int) - minx == xx && (
                        lights@[j].pos.y as int) - miny == yy {
                        let j = choose|j: int|
                            0 <= j < k + 1 && ((#[trigger] lights@[j]).pos.x as int) - minx == xx
                                && (lights@[j].pos.y as int) - miny == yy;
                        if j == k {
                            assert(false);
                        }
                    }
                }
            }
        }
        k = k + 1;
    }
    proof {
        reveal_strlit("#");
        reveal_strlit(".");
        reveal_strlit("\n");
        assert("#"@ =~= seq!['#']);
        assert("."@ =~= seq!['.']);
        assert("\n"@ =~= seq!['\n']);
    }
    let mut res = String::new();
    let mut yy: usize = 0;
    while yy < h
        invariant
            yy <= h,
            1 <= w <= 60001,
            1 <= h <= 60001,
            buf@.len() == h * w,
            forall|i: int| 0 <= i < buf@.len() ==> buf@[i] == '#' || (#[trigger] buf@[i]) == '.',
            "#"@ =~= seq!['#'],
            "."@ =~= seq!['.'],
            "\n"@ =~= seq!['\n'],
            res@.len() == yy * (w + 1),
            forall|y2: int, x2: int|
                0 <= y2 < yy && 0 <= x2 < w ==> #[trigger] rendered_cell(res@, w as int, y2, x2)
                    == grid_cell(buf@, w as int, y2, x2),
            forall|y2: int| 0 <= y2 < yy ==> #[trigger] rendered_cell(res@, w as int, y2, w as int)
                == '\n',
        decreases h - yy,
    {
        let mut xx: usize = 0;
        while xx < w
            invariant
                yy < h,
                xx <= w,
                1 <= w <= 60001,
                1 <= h <= 60001,
                buf@.len() == h * w,
                forall|i: int|
                    0 <= i < buf@.len() ==> buf@[i] == '#' || (#[trigger] buf@[i]) == '.',
                "#"@ =~= seq!['#'],
                "."@ =~= seq!['.'],
                res@.len() == yy * (w + 1) + xx,
                forall|y2: int, x2: int|
                    0 <= y2 < yy && 0 <= x2 < w ==> #[trigger] rendered_cell(
                        res@,
                        w as int,
                        y2,
                        x2,
                    ) == grid_cell(buf@, w as int, y2, x2),
                forall|y2: int|
                    0 <= y2 < yy ==> #[trigger] rendered_cell(res@, w as int, y2, w as int)
                        == '\n',
                forall|x2: int|
                    0 <= x2 < xx ==> #[trigger] rendered_cell(res@, w as int, yy as int, x2)
                        == grid_cell(buf@, w as int, yy as int, x2),
            decreases w - xx,
        {
            proof {
                assert((yy as int) * (w as int) + (xx as int) < (h as int) * (w as int))
                    by (nonlinear_arith)
                    requires
                        0 <= (xx as int) < w as int,
                        0 <= (yy as int) < h as int,
                ;
                assert((h as int) * (w as int) <= 3600120001) by (nonlinear_arith)
                    requires
                        1 <= h as int <= 60001,
                        1 <= w as int <= 60001,
                ;
            }
            let c = buf[yy * w + xx];
            let ghost pre_res = res@;
            if (c as u32) == ('#' as u32) {
                proof {
                    vstd::utf8::char_u32_cast(c, c as u32);
                    vstd::utf8::char_u32_cast('#', '#' as u32);
                }
                res.append("#");
            } else {
                proof {
                    vstd::utf8::char_u32_cast(c, c as u32);
                    vstd::utf8::char_u32_cast('#', '#' as u32);
                    assert(c == '.') by {
                        assert(buf@[(yy as int) * (w as int) + (xx as int)] == '#' || buf@[(
                        yy as int) * (w as int) + (xx as int)] == '.');
                    }
                }
                res.append(".");
            }
            proof {
                assert(res@ == pre_res.push(c)) by {
                    assert(res@ =~= pre_res.push(c));
                }
                assert forall|y2: int, x2: int|
                    0 <= y2 < yy && 0 <= x2 < w implies #[trigger] rendered_cell(
                    res@,
                    w as int,
                    y2,
                    x2,
                ) == grid_cell(buf@, w as int, y2, x2) by {
                    assert(0 <= y2 * ((w as int) + 1) + x2 < pre_res.len()) by (nonlinear_arith)
                        requires
                            0 <= y2 < yy as int,
                            0 <= x2 < w as int,
                            pre_res.len() == (yy as int) * (w as int + 1) + xx as int,
                            0 <= xx as int,
                    ;
                    assert(rendered_cell(pre_res, w as int, y2, x2) == grid_cell(
                        buf@,
                        w as int,
                        y2,
                        x2,
                    ));
                }
                assert forall|y2: int| 0 <= y2 < yy implies #[trigger] rendered_cell(
                    res@,
                    w as int,
                    y2,
                    w as int,
                ) == '\n' by {
                    assert(0 <= y2 * ((w as int) + 1) + (w as int) < pre_res.len())
                        by (nonlinear_arith)
                        requires
                            0 <= y2 < yy as int,
                            0 <= w as int,
                            pre_res.len() == (yy as int) * (w as int + 1) + xx as int,
                            0 <= xx as int,
                    ;
                    assert(rendered_cell(pre_res, w as int, y2, w as int) == '\n');
                }
                assert forall|x2: int|
                    0 <= x2 < xx + 1 implies #[trigger] rendered_cell(
                    res@,
                    w as int,
                    yy as int,
                    x2,
                ) == grid_cell(buf@, w as int, yy as int, x2) by {
                    if x2 < xx {
                        assert(rendered_cell(pre_res, w as int, yy as int, x2) == grid_cell(
                            buf@,
                            w as int,
                            yy as int,
                            x2,
                        ));
                    } else {
                        assert(res@[(yy as int) * (w as int + 1) + x2] == c);
                    }
                }
            }
            xx = xx + 1;
        }
        let ghost pre_row = res@;
        res.append("\n");
        proof {
            assert(res@ == pre_row.push('\n')) by {
                assert(res@ =~= pre_row.push('\n'));
            }
            assert forall|y2: int, x2: int|
                0 <= y2 < yy + 1 && 0 <= x2 < w implies #[trigger] rendered_cell(
                res@,
                w as int,
                y2,
                x2,
            ) == grid_cell(buf@, w as int, y2, x2) by {
                assert(0 <= y2 * ((w as int) + 1) + x2 < pre_row.len()) by (nonlinear_arith)
                    requires
                        0 <= y2 <= yy as int,
                        0 <= x2 < w as int,
                        pre_row.len() == (yy as int) * (w as int + 1) + w as int,
                ;
                assert(rendered_cell(pre_row, w as int, y2, x2) == grid_cell(
                    buf@,
                    w as int,
                    y2,
                    x2,
                ));
            }
            assert forall|y2: int| 0 <= y2 < yy + 1 implies #[trigger] rendered_cell(
                res@,
                w as int,
                y2,
                w as int,
            ) == '\n' by {
                if y2 < yy {
                    assert(0 <= y2 * ((w as int) + 1) + (w as int) < pre_row.len())
                        by (nonlinear_arith)
                        requires
                            0 <= y2 < yy as int,
                            0 <= w as int,
                            pre_row.len() == (yy as int) * (w as int + 1) + w as int,
                    ;
                    assert(rendered_cell(pre_row, w as int, y2, w as int) == '\n');
                } else {
                    assert(res@[(yy as int) * (w as int + 1) + w as int] == '\n');
                }
            }
            assert((yy as int + 1) * (w as int + 1) == (yy as int) * (w as int + 1) + (w as int
                + 1)) by (nonlinear_arith);
        }
        yy = yy + 1;
    }
    proof {
        assert((h as int) * (w as int + 1) == res@.len());
    }
    res
}

} // verus!
