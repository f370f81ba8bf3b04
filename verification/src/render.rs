//! Frame partitioning for the tile-based rendering scheduler.
//!
//! The frame is divided into fixed-size square tiles, plus ragged tiles for
//! the right-edge, bottom-edge and corner remainders. Every pixel of the
//! frame belongs to exactly one tile.

use vstd::arithmetic::div_mod::{
    lemma_fundamental_div_mod, lemma_fundamental_div_mod_converse,
    lemma_mod_division_less_than_divisor,
};
use vstd::prelude::*;

use crate::BLOCK_SIZE;

verus! {

/// A rectangular pixel region: the unit of scheduling for the worker pool.
#[derive(Clone, Copy, PartialEq, Eq, Structural, Debug)]
pub struct FrameSection {
    pub x: u32,
    pub y: u32,
    pub width: u32,
    pub height: u32,
}

/// Whether the pixel `(px, py)` lies inside the section.
pub open spec fn section_contains(s: FrameSection, px: int, py: int) -> bool {
    &&& s.x <= px < s.x + s.width
    &&& s.y <= py < s.y + s.height
}

/// A non-empty section that lies entirely inside a `width` by `height` frame.
pub open spec fn section_in_frame(s: FrameSection, width: int, height: int) -> bool {
    &&& s.width > 0
    &&& s.height > 0
    &&& s.x + s.width <= width
    &&& s.y + s.height <= height
}

/// Start of the tiling segment that covers position `p` on one axis, where
/// the axis has `full` whole blocks before the remainder region begins.
pub open spec fn seg_start(full: int, p: int) -> int {
    if p < full * (BLOCK_SIZE as int) {
        (BLOCK_SIZE as int) * (p / (BLOCK_SIZE as int))
    } else {
        full * (BLOCK_SIZE as int)
    }
}

/// Length of the tiling segment that covers position `p` on one axis of
/// extent `limit`.
pub open spec fn seg_len(full: int, limit: int, p: int) -> int {
    if p < full * (BLOCK_SIZE as int) {
        BLOCK_SIZE as int
    } else {
        limit - full * (BLOCK_SIZE as int)
    }
}

/// The unique section of the frame partition that covers pixel `(px, py)`.
pub open spec fn sec_of(width: int, height: int, px: int, py: int) -> FrameSection {
    FrameSection {
        x: seg_start(width / (BLOCK_SIZE as int), px) as u32,
        y: seg_start(height / (BLOCK_SIZE as int), py) as u32,
        width: seg_len(width / (BLOCK_SIZE as int), width, px) as u32,
        height: seg_len(height / (BLOCK_SIZE as int), height, py) as u32,
    }
}

/// Some section of the list covers the pixel `(px, py)`.
pub open spec fn covered(sections: Seq<FrameSection>, px: int, py: int) -> bool {
    exists|i: int| 0 <= i < sections.len() && section_contains(#[trigger] sections[i], px, py)
}

/// On one axis, the segment that covers `p` is well formed, covers `p`, and
/// is the segment of every position it covers.
proof fn lemma_seg(full: int, limit: int, p: int)
    requires
        0 <= p < limit,
        limit <= u32::MAX,
        full == limit / (BLOCK_SIZE as int),
    ensures
        0 <= seg_start(full, p),
        seg_start(full, p) <= p < seg_start(full, p) + seg_len(full, limit, p),
        seg_start(full, p) + seg_len(full, limit, p) <= limit,
        seg_len(full, limit, p) > 0,
        forall|q: int|
            seg_start(full, p) <= q < seg_start(full, p) + seg_len(full, limit, p) ==> {
                &&& #[trigger] seg_start(full, q) == seg_start(full, p)
                &&& seg_len(full, limit, q) == seg_len(full, limit, p)
            },
{
    let b = BLOCK_SIZE as int;
    lemma_fundamental_div_mod(limit, b);
    lemma_mod_division_less_than_divisor(limit, b);
    assert(b * full <= limit < b * full + b);
    if p < full * b {
        let m = p / b;
        lemma_fundamental_div_mod(p, b);
        lemma_mod_division_less_than_divisor(p, b);
        assert(b * m <= p < b * m + b);
        assert(m >= 0) by (nonlinear_arith)
            requires
                b * m <= p,
                0 <= p < b * m + b,
                b == BLOCK_SIZE as int,
        ;
        assert(m < full) by (nonlinear_arith)
            requires
                b * m <= p,
                p < full * b,
                b == BLOCK_SIZE as int,
        ;
        assert(b * (m + 1) <= b * full) by (nonlinear_arith)
            requires
                m + 1 <= full,
                b == BLOCK_SIZE as int,
        ;
        assert(seg_start(full, p) == b * m);
        assert forall|q: int| b * m <= q < b * m + b implies {
            &&& #[trigger] seg_start(full, q) == seg_start(full, p)
            &&& seg_len(full, limit, q) == seg_len(full, limit, p)
        } by {
            assert(q < full * b) by (nonlinear_arith)
                requires
                    q < b * m + b,
                    b * (m + 1) <= b * full,
                    b == BLOCK_SIZE as int,
            ;
            lemma_fundamental_div_mod_converse(q, b, m, q - b * m);
            assert(q / b == m);
        }
    } else {
        assert(seg_start(full, p) == full * b);
        assert(full * b == b * full) by (nonlinear_arith);
        assert(full * b <= p);
        assert forall|q: int| full * b <= q < limit implies {
            &&& #[trigger] seg_start(full, q) == seg_start(full, p)
            &&& seg_len(full, limit, q) == seg_len(full, limit, p)
        } by {
            assert(!(q < full * b));
        }
    }
}

/// The section `sec_of(width, height, px, py)` lies in the frame, covers
/// `(px, py)`, and is the canonical section of every pixel it covers.
proof fn lemma_sec_of_props(width: int, height: int, px: int, py: int)
    requires
        0 <= px < width <= u32::MAX,
        0 <= py < height <= u32::MAX,
    ensures
        ({
            let s = sec_of(width, height, px, py);
            &&& section_in_frame(s, width, height)
            &&& section_contains(s, px, py)
            &&& forall|qx: int, qy: int|
                section_contains(s, qx, qy) ==> #[trigger] sec_of(width, height, qx, qy) == s
        }),
{
    let b = BLOCK_SIZE as int;
    let fw = width / b;
    let fh = height / b;
    lemma_seg(fw, width, px);
    lemma_seg(fh, height, py);
    let s = sec_of(width, height, px, py);
    assert(s.x == seg_start(fw, px));
    assert(s.y == seg_start(fh, py));
    assert(s.width == seg_len(fw, width, px));
    assert(s.height == seg_len(fh, height, py));
    assert forall|qx: int, qy: int| section_contains(s, qx, qy) implies #[trigger] sec_of(
        width,
        height,
        qx,
        qy,
    ) == s by {
        assert(seg_start(fw, qx) == seg_start(fw, px));
        assert(seg_start(fh, qy) == seg_start(fh, py));
        assert(seg_len(fw, width, qx) == seg_len(fw, width, px));
        assert(seg_len(fh, height, qy) == seg_len(fh, height, py));
    }
}

/// A section equal to the canonical section of its own top-left corner.
pub open spec fn is_tile_of(width: int, height: int, s: FrameSection) -> bool {
    &&& section_in_frame(s, width, height)
    &&& s == sec_of(width, height, s.x as int, s.y as int)
}

/// Every pixel covered by a canonical tile has that tile as its canonical
/// section.
proof fn lemma_tile_determined(width: int, height: int, s: FrameSection, px: int, py: int)
    requires
        width <= u32::MAX,
        height <= u32::MAX,
        is_tile_of(width, height, s),
        section_contains(s, px, py),
    ensures
        sec_of(width, height, px, py) == s,
{
    lemma_sec_of_props(width, height, s.x as int, s.y as int);
}

/// A pixel covered by some section of the list is still covered after a push.
proof fn lemma_covered_push(sections: Seq<FrameSection>, s: FrameSection, px: int, py: int)
    requires
        covered(sections, px, py),
    ensures
        covered(sections.push(s), px, py),
{
    let i = choose|i: int|
        0 <= i < sections.len() && section_contains(#[trigger] sections[i], px, py);
    assert(sections.push(s)[i] == sections[i]);
}

/// Partition a `width` by `height` frame into scheduling tiles.
///
/// Full `BLOCK_SIZE` square tiles cover the body of the frame; ragged tiles
/// cover the right-edge remainder, the bottom-edge remainder and the
/// bottom-right corner when the frame is not an exact multiple of the block
/// size. The returned tiles lie inside the frame and cover every pixel of
/// the frame exactly once.
pub fn divide_frame(width: u32, height: u32) -> (sections: Vec<FrameSection>)
    ensures
        forall|i: int|
            0 <= i < sections@.len() ==> section_in_frame(
                #[trigger] sections@[i],
                width as int,
                height as int,
            ),
        forall|px: int, py: int|
            0 <= px < width && 0 <= py < height ==> covered(sections@, px, py),
        forall|i: int, j: int, px: int, py: int|
            #![trigger section_contains(sections@[i], px, py), section_contains(sections@[j], px, py)]
            {
                &&& 0 <= i < sections@.len()
                &&& 0 <= j < sections@.len()
                &&& section_contains(sections@[i], px, py)
                &&& section_contains(sections@[j], px, py)
            } ==> i == j,
{
    let ghost w = width as int;
    let ghost h = height as int;
    let ghost b = BLOCK_SIZE as int;
    let cols = width / BLOCK_SIZE;
    let rows = height / BLOCK_SIZE;
    let col_remainder = width % BLOCK_SIZE;
    let row_remainder = height % BLOCK_SIZE;
    proof {
        lemma_fundamental_div_mod(w, b);
        lemma_fundamental_div_mod(h, b);
        lemma_mod_division_less_than_divisor(w, b);
        lemma_mod_division_less_than_divisor(h, b);
    }

    let mut sections: Vec<FrameSection> = Vec::new();

    // Full square tiles over the body of the frame.
    let mut y: u32 = 0;
    while y < rows
        invariant
            b == BLOCK_SIZE as int,
            w == width as int,
            h == height as int,
            cols == width / BLOCK_SIZE,
            rows == height / BLOCK_SIZE,
            width == (BLOCK_SIZE * cols + width % BLOCK_SIZE),
            height == (BLOCK_SIZE * rows + height % BLOCK_SIZE),
            y <= rows,
            forall|i: int|
                0 <= i < sections@.len() ==> is_tile_of(w, h, #[trigger] sections@[i]),
            forall|i: int, j: int|
                0 <= i < j < sections@.len() ==> sections@[i] != sections@[j],
            forall|i: int| 0 <= i < sections@.len() ==> (#[trigger] sections@[i]).y < y * b,
            forall|i: int| 0 <= i < sections@.len() ==> (#[trigger] sections@[i]).x < cols * b,
            forall|px: int, py: int|
                0 <= px < cols * b && 0 <= py < y * b ==> covered(sections@, px, py),
        decreases rows - y,
    {
        let mut x: u32 = 0;
        while x < cols
            invariant
                b == BLOCK_SIZE as int,
                w == width as int,
                h == height as int,
                cols == width / BLOCK_SIZE,
                rows == height / BLOCK_SIZE,
                width == (BLOCK_SIZE * cols + width % BLOCK_SIZE),
                height == (BLOCK_SIZE * rows + height % BLOCK_SIZE),
                y < rows,
                x <= cols,
                forall|i: int|
                    0 <= i < sections@.len() ==> is_tile_of(w, h, #[trigger] sections@[i]),
                forall|i: int, j: int|
                    0 <= i < j < sections@.len() ==> sections@[i] != sections@[j],
                forall|i: int|
                    0 <= i < sections@.len() ==> (#[trigger] sections@[i]).y < y * b || (
                    sections@[i].y == y * b && sections@[i].x < x * b),
                forall|i: int|
                    0 <= i < sections@.len() ==> (#[trigger] sections@[i]).x < cols * b,
                forall|px: int, py: int|
                    0 <= px < cols * b && 0 <= py < y * b ==> covered(sections@, px, py),
                forall|px: int, py: int|
                    0 <= px < x * b && y * b <= py < y * b + b ==> covered(sections@, px, py),
            decreases cols - x,
        {
            proof {
                assert(x * b + b <= cols * b && y * b + b <= rows * b) by (nonlinear_arith)
                    requires
                        x + 1 <= cols,
                        y + 1 <= rows,
                        b == BLOCK_SIZE as int,
                ;
                assert(BLOCK_SIZE * cols == cols * b && BLOCK_SIZE * rows == rows * b)
                    by (nonlinear_arith)
                    requires
                        b == BLOCK_SIZE as int,
                ;
                assert(x * b <= u32::MAX && y * b <= u32::MAX);
            }
            let tile = FrameSection {
                x: x * BLOCK_SIZE,
                y: y * BLOCK_SIZE,
                width: BLOCK_SIZE,
                height: BLOCK_SIZE,
            };
            proof {
                lemma_sec_of_props(w, h, tile.x as int, tile.y as int);
                let c = sec_of(w, h, tile.x as int, tile.y as int);
                assert((tile.x as int) < cols * b);
                assert((tile.x as int) / b == x) by {
                    lemma_fundamental_div_mod_converse(tile.x as int, b, x as int, 0);
                }
                assert(seg_start(cols as int, tile.x as int) == b * ((tile.x as int) / b));
                assert(b * (x as int) == x * b) by (nonlinear_arith);
                assert(c.x == tile.x && c.width == tile.width);
                assert((tile.y as int) / b == y) by {
                    lemma_fundamental_div_mod_converse(tile.y as int, b, y as int, 0);
                }
                assert(b * (y as int) == y * b) by (nonlinear_arith);
                assert(c.y == tile.y && c.height == tile.height);
                assert(is_tile_of(w, h, tile));
            }
            let ghost old_sections = sections@;
            sections.push(tile);
            proof {
                assert forall|px: int, py: int|
                    0 <= px < cols * b && 0 <= py < y * b implies covered(sections@, px, py) by {
                    lemma_covered_push(old_sections, tile, px, py);
                }
                assert forall|px: int, py: int|
                    0 <= px < (x + 1) * b && y * b <= py < y * b + b implies covered(
                    sections@,
                    px,
                    py,
                ) by {
                    assert((x + 1) * b == x * b + b) by (nonlinear_arith);
                    if px < x * b {
                        lemma_covered_push(old_sections, tile, px, py);
                    } else {
                        assert(section_contains(tile, px, py));
                        assert(sections@[old_sections.len() as int] == tile);
                    }
                }
                assert forall|i: int, j: int| 0 <= i < j < sections@.len() implies sections@[i]
                    != sections@[j] by {
                    if j == sections@.len() - 1 {
                        assert(sections@[i].y < y * b || (sections@[i].y == y * b && sections@[i].x
                            < x * b));
                    }
                }
            }
            x = x + 1;
        }
        proof {
            assert((y + 1) * b == y * b + b) by (nonlinear_arith);
        }
        y = y + 1;
    }

    // Right-edge remainder tiles.
    if col_remainder > 0 {
        let mut y2: u32 = 0;
        while y2 < rows
            invariant
                b == BLOCK_SIZE as int,
                w == width as int,
                h == height as int,
                cols == width / BLOCK_SIZE,
                rows == height / BLOCK_SIZE,
                width == (BLOCK_SIZE * cols + width % BLOCK_SIZE),
                height == (BLOCK_SIZE * rows + height % BLOCK_SIZE),
                col_remainder == width % BLOCK_SIZE,
                col_remainder > 0,
                y2 <= rows,
                forall|i: int|
                    0 <= i < sections@.len() ==> is_tile_of(w, h, #[trigger] sections@[i]),
                forall|i: int, j: int|
                    0 <= i < j < sections@.len() ==> sections@[i] != sections@[j],
                forall|i: int|
                    0 <= i < sections@.len() ==> (#[trigger] sections@[i]).x < cols * b || (
                    sections@[i].x == cols * b && sections@[i].y < y2 * b),
                forall|i: int| 0 <= i < sections@.len() ==> (#[trigger] sections@[i]).y < rows * b,
                forall|px: int, py: int|
                    0 <= px < cols * b && 0 <= py < rows * b ==> covered(sections@, px, py),
                forall|px: int, py: int|
                    cols * b <= px < w && 0 <= py < y2 * b ==> covered(sections@, px, py),
            decreases rows - y2,
        {
            proof {
                assert(y2 * b + b <= rows * b) by (nonlinear_arith)
                    requires
                        y2 + 1 <= rows,
                        b == BLOCK_SIZE as int,
                ;
                assert(BLOCK_SIZE * cols == cols * b && BLOCK_SIZE * rows == rows * b)
                    by (nonlinear_arith)
                    requires
                        b == BLOCK_SIZE as int,
                ;
            }
            let tile = FrameSection {
                x: cols * BLOCK_SIZE,
                y: y2 * BLOCK_SIZE,
                width: col_remainder,
                height: BLOCK_SIZE,
            };
            proof {
                lemma_sec_of_props(w, h, tile.x as int, tile.y as int);
                let c = sec_of(w, h, tile.x as int, tile.y as int);
                assert(!((tile.x as int) < cols * b));
                assert(seg_start(cols as int, tile.x as int) == cols * b);
                assert(c.x == tile.x && c.width == tile.width);
                assert((tile.y as int) / b == y2) by {
                    lemma_fundamental_div_mod_converse(tile.y as int, b, y2 as int, 0);
                }
                assert((tile.y as int) < rows * b);
                assert(b * (y2 as int) == y2 * b) by (nonlinear_arith);
                assert(c.y == tile.y && c.height == tile.height);
                assert(is_tile_of(w, h, tile));
            }
            let ghost old_sections = sections@;
            sections.push(tile);
            proof {
                assert forall|px: int, py: int|
                    0 <= px < cols * b && 0 <= py < rows * b implies covered(sections@, px, py) by {
                    lemma_covered_push(old_sections, tile, px, py);
                }
                assert forall|px: int, py: int|
                    cols * b <= px < w && 0 <= py < (y2 + 1) * b implies covered(
                    sections@,
                    px,
                    py,
                ) by {
                    assert((y2 + 1) * b == y2 * b + b) by (nonlinear_arith);
                    if py < y2 * b {
                        lemma_covered_push(old_sections, tile, px, py);
                    } else {
                        assert(section_contains(tile, px, py));
                        assert(sections@[old_sections.len() as int] == tile);
                    }
                }
                assert forall|i: int, j: int| 0 <= i < j < sections@.len() implies sections@[i]
                    != sections@[j] by {
                    if j == sections@.len() - 1 {
                        assert(sections@[i].x < cols * b || (sections@[i].x == cols * b
                            && sections@[i].y < y2 * b));
                    }
                }
            }
            y2 = y2 + 1;
        }
    }

    // Bottom-edge remainder tiles.
    if row_remainder > 0 {
        let mut x3: u32 = 0;
        while x3 < cols
            invariant
                b == BLOCK_SIZE as int,
                w == width as int,
                h == height as int,
                cols == width / BLOCK_SIZE,
                rows == height / BLOCK_SIZE,
                width == (BLOCK_SIZE * cols + width % BLOCK_SIZE),
                height == (BLOCK_SIZE * rows + height % BLOCK_SIZE),
                row_remainder == height % BLOCK_SIZE,
                row_remainder > 0,
                x3 <= cols,
                forall|i: int|
                    0 <= i < sections@.len() ==> is_tile_of(w, h, #[trigger] sections@[i]),
                forall|i: int, j: int|
                    0 <= i < j < sections@.len() ==> sections@[i] != sections@[j],
                forall|i: int|
                    0 <= i < sections@.len() ==> (#[trigger] sections@[i]).y < rows * b || (
                    sections@[i].y == rows * b && sections@[i].x < x3 * b),
                forall|px: int, py: int|
                    0 <= px < w && 0 <= py < rows * b ==> covered(sections@, px, py),
                forall|px: int, py: int|
                    0 <= px < x3 * b && rows * b <= py < h ==> covered(sections@, px, py),
            decreases cols - x3,
        {
            proof {
                assert(x3 * b + b <= cols * b) by (nonlinear_arith)
                    requires
                        x3 + 1 <= cols,
                        b == BLOCK_SIZE as int,
                ;
                assert(BLOCK_SIZE * cols == cols * b && BLOCK_SIZE * rows == rows * b)
                    by (nonlinear_arith)
                    requires
                        b == BLOCK_SIZE as int,
                ;
            }
            let tile = FrameSection {
                x: x3 * BLOCK_SIZE,
                y: rows * BLOCK_SIZE,
                width: BLOCK_SIZE,
                height: row_remainder,
            };
            proof {
                lemma_sec_of_props(w, h, tile.x as int, tile.y as int);
                let c = sec_of(w, h, tile.x as int, tile.y as int);
                assert((tile.x as int) / b == x3) by {
                    lemma_fundamental_div_mod_converse(tile.x as int, b, x3 as int, 0);
                }
                assert((tile.x as int) < cols * b);
                assert(b * (x3 as int) == x3 * b) by (nonlinear_arith);
                assert(c.x == tile.x && c.width == tile.width);
                assert(!((tile.y as int) < rows * b));
                assert(seg_start(rows as int, tile.y as int) == rows * b);
                assert(c.y == tile.y && c.height == tile.height);
                assert(is_tile_of(w, h, tile));
            }
            let ghost old_sections = sections@;
            sections.push(tile);
            proof {
                assert forall|px: int, py: int|
                    0 <= px < w && 0 <= py < rows * b implies covered(sections@, px, py) by {
                    lemma_covered_push(old_sections, tile, px, py);
                }
                assert forall|px: int, py: int|
                    0 <= px < (x3 + 1) * b && rows * b <= py < h implies covered(
                    sections@,
                    px,
                    py,
                ) by {
                    assert((x3 + 1) * b == x3 * b + b) by (nonlinear_arith);
                    if px < x3 * b {
                        lemma_covered_push(old_sections, tile, px, py);
                    } else {
                        assert(section_contains(tile, px, py));
                        assert(sections@[old_sections.len() as int] == tile);
                    }
                }
                assert forall|i: int, j: int| 0 <= i < j < sections@.len() implies sections@[i]
                    != sections@[j] by {
                    if j == sections@.len() - 1 {
                        assert(sections@[i].y < rows * b || (sections@[i].y == rows * b
                            && sections@[i].x < x3 * b));
                    }
                }
            }
            x3 = x3 + 1;
        }
    }

    // Bottom-right corner remainder tile.
    if col_remainder > 0 && row_remainder > 0 {
        proof {
            assert(BLOCK_SIZE * cols == cols * b && BLOCK_SIZE * rows == rows * b)
                by (nonlinear_arith)
                requires
                    b == BLOCK_SIZE as int,
            ;
        }
        let tile = FrameSection {
            x: cols * BLOCK_SIZE,
            y: rows * BLOCK_SIZE,
            width: col_remainder,
            height: row_remainder,
        };
        proof {
            lemma_sec_of_props(w, h, tile.x as int, tile.y as int);
            let c = sec_of(w, h, tile.x as int, tile.y as int);
            assert(!((tile.x as int) < cols * b));
            assert(!((tile.y as int) < rows * b));
            assert(c == tile);
            assert(is_tile_of(w, h, tile));
        }
        let ghost old_sections = sections@;
        sections.push(tile);
        proof {
            assert forall|px: int, py: int|
                0 <= px < w && 0 <= py < h implies covered(sections@, px, py) by {
                if px < cols * b || py < rows * b {
                    lemma_covered_push(old_sections, tile, px, py);
                } else {
                    assert(section_contains(tile, px, py));
                    assert(sections@[old_sections.len() as int] == tile);
                }
            }
            assert forall|i: int, j: int| 0 <= i < j < sections@.len() implies sections@[i]
                != sections@[j] by {
                if j == sections@.len() - 1 {
                    assert(sections@[i].y < rows * b || sections@[i].x < cols * b);
                }
            }
        }
    }

    proof {
        assert(BLOCK_SIZE * cols == cols * b && BLOCK_SIZE * rows == rows * b) by (nonlinear_arith)
            requires
                b == BLOCK_SIZE as int,
        ;
        assert forall|px: int, py: int| 0 <= px < width && 0 <= py < height implies covered(
            sections@,
            px,
            py,
        ) by {
            if col_remainder == 0 {
                assert(px < cols * b);
            }
            if row_remainder == 0 {
                assert(py < rows * b);
            }
        }
        assert forall|i: int, j: int, px: int, py: int|
            #![trigger section_contains(sections@[i], px, py), section_contains(sections@[j], px, py)]
            {
                &&& 0 <= i < sections@.len()
                &&& 0 <= j < sections@.len()
                &&& section_contains(sections@[i], px, py)
                &&& section_contains(sections@[j], px, py)
            } implies i == j by {
            lemma_tile_determined(w, h, sections@[i], px, py);
            lemma_tile_determined(w, h, sections@[j], px, py);
            assert(sections@[i] == sections@[j]);
            if i != j {
                let (lo, hi) = if i < j {
                    (i, j)
                } else {
                    (j, i)
                };
                assert(sections@[lo] != sections@[hi]);
            }
        }
    }

    sections
}


/// Relies on num_cpus::get: the number of logical CPUs of the machine,
/// documented to always be at least one. One worker thread is started
/// per logical CPU.
#[verifier::external_body]
pub(crate) fn worker_count() -> (n: usize)
    ensures
        1 <= n,
{
    num_cpus::get()
}

/// A finished pixel on its way from a worker to the image assembler.
#[derive(Clone, Copy, PartialEq, Eq, Debug)]
pub struct PixelColour {
    pub x: u32,
    pub y: u32,
    pub rgb: [u8; 3],
}

/// The output raster: `width * height` RGB pixels in row-major order.
pub struct Image {
    pub width: u32,
    pub height: u32,
    pub pixels: Vec<[u8; 3]>,
}

impl Image {
    /// A well-formed raster holds exactly one pixel per coordinate.
    pub open spec fn wf(self) -> bool {
        &&& self.pixels@.len() == (self.width as int) * (self.height as int)
        &&& (self.width as int) * (self.height as int) <= usize::MAX
    }

    /// Row-major position of pixel `(x, y)`.
    pub open spec fn pixel_index(self, x: int, y: int) -> int {
        y * self.width + x
    }

    /// A black raster of the given size.
    pub fn new(width: u32, height: u32) -> (r: Image)
        requires
            (width as int) * (height as int) <= usize::MAX,
        ensures
            r.wf(),
            r.width == width,
            r.height == height,
            forall|i: int| 0 <= i < r.pixels@.len() ==> (#[trigger] r.pixels@[i]) == [0u8, 0u8, 0u8],
    {
        let ghost target = (width as int) * (height as int);
        let total = (width as usize) * (height as usize);
        proof {
            assert((width as usize) * (height as usize) == (width as int) * (height as int))
                by (nonlinear_arith)
                requires
                    (width as int) * (height as int) <= usize::MAX,
            ;
        }
        let mut pixels: Vec<[u8; 3]> = Vec::new();
        while pixels.len() < total
            invariant
                total == target <= usize::MAX,
                pixels@.len() <= total,
                forall|i: int|
                    0 <= i < pixels@.len() ==> (#[trigger] pixels@[i]) == [0u8, 0u8, 0u8],
            decreases total - pixels@.len(),
        {
            pixels.push([0, 0, 0]);
        }
        Image { width, height, pixels }
    }

    /// Write one pixel, as the assembler does for each arriving message.
    pub fn put_pixel(&mut self, x: u32, y: u32, rgb: [u8; 3])
        requires
            old(self).wf(),
            x < old(self).width,
            y < old(self).height,
        ensures
            final(self).wf(),
            final(self).width == old(self).width,
            final(self).height == old(self).height,
            final(self).pixels@ == old(self).pixels@.update(
                old(self).pixel_index(x as int, y as int),
                rgb,
            ),
    {
        proof {
            assert(0 <= (y as int) * (self.width as int) + (x as int) < (self.width as int) * (
            self.height as int)) by (nonlinear_arith)
                requires
                    x < self.width,
                    y < self.height,
            ;
            assert((y as usize) * (self.width as usize) == (y as int) * (self.width as int))
                by (nonlinear_arith)
                requires
                    (y as int) * (self.width as int) + (x as int) < (self.width as int) * (
                    self.height as int) <= usize::MAX,
                    0 <= x && 0 <= y,
            ;
        }
        let i = (y as usize) * (self.width as usize) + (x as usize);
        self.pixels[i] = rgb;
    }
}

/// The colour a pixel ends up with after a stream of messages: that of
/// the last message addressed to it, or black if none is.
pub open spec fn spec_pixel_at(messages: Seq<PixelColour>, x: int, y: int) -> [u8; 3]
    decreases messages.len(),
{
    if messages.len() == 0 {
        [0u8, 0u8, 0u8]
    } else if messages.last().x == x && messages.last().y == y {
        messages.last().rgb
    } else {
        spec_pixel_at(messages.drop_last(), x, y)
    }
}

/// Drain the workers' pixel messages into a raster, in arrival order.
pub fn assemble(width: u32, height: u32, messages: &Vec<PixelColour>) -> (img: Image)
    requires
        (width as int) * (height as int) <= usize::MAX,
        forall|i: int|
            0 <= i < messages@.len() ==> (#[trigger] messages@[i]).x < width && messages@[i].y
                < height,
    ensures
        img.wf(),
        img.width == width,
        img.height == height,
        forall|x: int, y: int|
            0 <= x < width && 0 <= y < height ==> #[trigger] img.pixels@[img.pixel_index(x, y)]
                == spec_pixel_at(messages@, x, y),
{
    let mut img = Image::new(width, height);
    proof {
        assert forall|x: int, y: int| 0 <= x < width && 0 <= y < height implies #[trigger] img
            .pixels@[img.pixel_index(x, y)] == spec_pixel_at(messages@.take(0), x, y) by {
            assert(messages@.take(0).len() == 0);
            assert(0 <= img.pixel_index(x, y) < img.pixels@.len()) by (nonlinear_arith)
                requires
                    0 <= x < img.width,
                    0 <= y < img.height,
                    img.pixels@.len() == (img.width as int) * (img.height as int),
            ;
        }
    }
    let mut k: usize = 0;
    while k < messages.len()
        invariant
            k <= messages@.len(),
            img.wf(),
            img.width == width,
            img.height == height,
            (width as int) * (height as int) <= usize::MAX,
            forall|i: int|
                0 <= i < messages@.len() ==> (#[trigger] messages@[i]).x < width && messages@[i].y
                    < height,
            forall|x: int, y: int|
                0 <= x < width && 0 <= y < height ==> #[trigger] img.pixels@[img.pixel_index(x, y)]
                    == spec_pixel_at(messages@.take(k as int), x, y),
        decreases messages@.len() - k,
    {
        let ghost prev = img;
        let m = messages[k];
        img.put_pixel(m.x, m.y, m.rgb);
        proof {
            assert(messages@.take(k + 1).drop_last() =~= messages@.take(k as int));
            assert(messages@.take(k + 1).last() == messages@[k as int]);
            assert forall|x: int, y: int| 0 <= x < width && 0 <= y < height implies #[trigger] img
                .pixels@[img.pixel_index(x, y)] == spec_pixel_at(
                messages@.take(k + 1),
                x,
                y,
            ) by {
                assert(0 <= prev.pixel_index(x, y) < prev.pixels@.len()) by (nonlinear_arith)
                    requires
                        0 <= x < prev.width,
                        0 <= y < prev.height,
                        prev.pixels@.len() == (prev.width as int) * (prev.height as int),
                ;
                assert(0 <= prev.pixel_index(m.x as int, m.y as int) < prev.pixels@.len())
                    by (nonlinear_arith)
                    requires
                        0 <= m.x < prev.width,
                        0 <= m.y < prev.height,
                        prev.pixels@.len() == (prev.width as int) * (prev.height as int),
                ;
                if x == m.x && y == m.y {
                    assert(img.pixels@[img.pixel_index(x, y)] == m.rgb);
                } else {
                    assert(img.pixel_index(x, y) != prev.pixel_index(m.x as int, m.y as int)) by {
                        if img.pixel_index(x, y) == prev.pixel_index(m.x as int, m.y as int) {
                            assert(y * width + x == (m.y as int) * width + (m.x as int));
                            assert(x == m.x && y == m.y) by (nonlinear_arith)
                                requires
                                    y * (width as int) + x == (m.y as int) * (width as int) + (
                                    m.x as int),
                                    0 <= x < width,
                                    0 <= m.x < width,
                                    0 <= y,
                                    0 <= m.y,
                            ;
                        }
                    }
                    assert(img.pixels@[img.pixel_index(x, y)] == prev.pixels@[prev.pixel_index(
                        x,
                        y,
                    )]);
                }
            }
        }
        k = k + 1;
    }
    proof {
        assert(messages@.take(messages@.len() as int) =~= messages@);
    }
    img
}

/// No two messages address the same pixel.
pub open spec fn distinct_pixels(messages: Seq<PixelColour>) -> bool {
    forall|i: int, j: int|
        0 <= i < j < messages.len() ==> !((#[trigger] messages[i]).x == (
        #[trigger] messages[j]).x && messages[i].y == messages[j].y)
}

/// The message addressed to pixel `(x, y)`, if any.
pub open spec fn pixel_message(messages: Seq<PixelColour>, x: int, y: int) -> Option<PixelColour> {
    if exists|i: int|
        0 <= i < messages.len() && (#[trigger] messages[i]).x == x && messages[i].y == y {
        Some(
            messages[choose|i: int|
                0 <= i < messages.len() && (#[trigger] messages[i]).x == x && messages[i].y == y],
        )
    } else {
        None
    }
}

/// When every pixel is addressed at most once, a pixel's final colour is
/// that of its message, or black if it has none.
proof fn lemma_pixel_at_from_message(messages: Seq<PixelColour>, x: int, y: int)
    requires
        distinct_pixels(messages),
    ensures
        spec_pixel_at(messages, x, y) == match pixel_message(messages, x, y) {
            Some(m) => m.rgb,
            None => [0u8, 0u8, 0u8],
        },
    decreases messages.len(),
{
    if messages.len() == 0 {
    } else {
        let rest = messages.drop_last();
        let last = messages.last();
        assert forall|i: int, j: int| 0 <= i < j < rest.len() implies !((#[trigger] rest[i]).x == (
        #[trigger] rest[j]).x && rest[i].y == rest[j].y) by {
            assert(rest[i] == messages[i] && rest[j] == messages[j]);
        }
        lemma_pixel_at_from_message(rest, x, y);
        if last.x == x && last.y == y {
            assert(messages[messages.len() - 1].x == x && messages[messages.len() - 1].y == y);
            let w = choose|i: int|
                0 <= i < messages.len() && (#[trigger] messages[i]).x == x && messages[i].y == y;
            if w != messages.len() - 1 {
                assert(!(messages[w].x == messages[messages.len() - 1].x && messages[w].y
                    == messages[messages.len() - 1].y));
                assert(false);
            }
            assert(pixel_message(messages, x, y) == Some(last));
        } else {
            match pixel_message(rest, x, y) {
                Some(m) => {
                    let w = choose|i: int|
                        0 <= i < rest.len() && (#[trigger] rest[i]).x == x && rest[i].y == y;
                    assert(messages[w].x == x && messages[w].y == y);
                    let w2 = choose|i: int|
                        0 <= i < messages.len() && (#[trigger] messages[i]).x == x && messages[i].y
                            == y;
                    if w2 == messages.len() - 1 {
                        assert(false);
                    }
                    assert(rest[w2].x == x && rest[w2].y == y);
                    if w2 != w {
                        assert(false);
                    }
                    assert(pixel_message(messages, x, y) == Some(m));
                },
                None => {
                    if exists|i: int|
                        0 <= i < messages.len() && (#[trigger] messages[i]).x == x && messages[i].y
                            == y {
                        let w = choose|i: int|
                            0 <= i < messages.len() && (#[trigger] messages[i]).x == x
                                && messages[i].y == y;
                        if w == messages.len() - 1 {
                            assert(false);
                        }
                        assert(rest[w].x == x && rest[w].y == y);
                        assert(false);
                    }
                    assert(pixel_message(messages, x, y) is None);
                },
            }
        }
    }
}

/// Multithreading determinism of the assembly step: two message streams
/// that hold the same messages — in any order — and address every pixel
/// at most once give every pixel the same final colour. Worker
/// completion order therefore does not affect the image.
pub proof fn lemma_assembly_order_independent(
    m1: Seq<PixelColour>,
    m2: Seq<PixelColour>,
    x: int,
    y: int,
)
    requires
        m1.to_multiset() == m2.to_multiset(),
        distinct_pixels(m1),
    ensures
        spec_pixel_at(m1, x, y) == spec_pixel_at(m2, x, y),
{
    broadcast use vstd::seq_lib::group_to_multiset_ensures;

    assert forall|i: int, j: int| 0 <= i < j < m2.len() implies !((#[trigger] m2[i]).x == (
    #[trigger] m2[j]).x && m2[i].y == m2[j].y) by {
        if m2[i].x == m2[j].x && m2[i].y == m2[j].y {
            if m2[i] == m2[j] {
                let v = m2[i];
                assert(m2.remove(j).to_multiset() =~= m2.to_multiset().remove(v));
                assert(m2.remove(j)[i] == v);
                assert(m2.remove(j).to_multiset().count(v) > 0);
                assert(m1.to_multiset().count(v) >= 2);
                let a = choose|a: int| 0 <= a < m1.len() && m1[a] == v;
                let m1r = m1.remove(a);
                assert(m1r.to_multiset() =~= m1.to_multiset().remove(v));
                assert(m1r.to_multiset().count(v) > 0);
                assert(m1r.contains(v));
                let b0 = choose|b: int| 0 <= b < m1r.len() && m1r[b] == v;
                let b = if b0 < a {
                    b0
                } else {
                    b0 + 1
                };
                assert(m1[b] == v && m1[a] == v && a != b);
                assert(false);
            } else {
                assert(m2.contains(m2[i]));
                assert(m1.to_multiset().count(m2[i]) > 0);
                assert(m1.contains(m2[i]));
                assert(m2.contains(m2[j]));
                assert(m1.to_multiset().count(m2[j]) > 0);
                assert(m1.contains(m2[j]));
                let a = choose|a: int| 0 <= a < m1.len() && m1[a] == m2[i];
                let b = choose|b: int| 0 <= b < m1.len() && m1[b] == m2[j];
                assert(a != b);
                assert(false);
            }
        }
    }
    lemma_pixel_at_from_message(m1, x, y);
    lemma_pixel_at_from_message(m2, x, y);
    match (pixel_message(m1, x, y), pixel_message(m2, x, y)) {
        (None, None) => {},
        (Some(p), None) => {
            let w = choose|i: int|
                0 <= i < m1.len() && (#[trigger] m1[i]).x == x && m1[i].y == y;
            assert(m1.contains(m1[w]));
            assert(m2.to_multiset().count(m1[w]) > 0);
            assert(m2.contains(m1[w]));
            let w2 = choose|i: int| 0 <= i < m2.len() && m2[i] == m1[w];
            assert(m2[w2].x == x && m2[w2].y == y);
            assert(false);
        },
        (None, Some(p)) => {
            let w = choose|i: int|
                0 <= i < m2.len() && (#[trigger] m2[i]).x == x && m2[i].y == y;
            assert(m2.contains(m2[w]));
            assert(m1.to_multiset().count(m2[w]) > 0);
            assert(m1.contains(m2[w]));
            let w2 = choose|i: int| 0 <= i < m1.len() && m1[i] == m2[w];
            assert(m1[w2].x == x && m1[w2].y == y);
            assert(false);
        },
        (Some(p), Some(q)) => {
            let w1 = choose|i: int|
                0 <= i < m1.len() && (#[trigger] m1[i]).x == x && m1[i].y == y;
            assert(p == m1[w1]);
            assert(m1.contains(m1[w1]));
            assert(m2.to_multiset().count(m1[w1]) > 0);
            assert(m2.contains(m1[w1]));
            let a = choose|i: int| 0 <= i < m2.len() && m2[i] == m1[w1];
            let w2 = choose|i: int|
                0 <= i < m2.len() && (#[trigger] m2[i]).x == x && m2[i].y == y;
            assert(q == m2[w2]);
            if a != w2 {
                assert(m2[a].x == x && m2[a].y == y);
                assert(false);
            }
            assert(p == q);
        },
    }
}


/// The pixels of a frame section, in the order a worker renders them:
/// column by column, top to bottom within a column.
pub fn section_pixels(s: &FrameSection) -> (r: Vec<(u32, u32)>)
    requires
        s.x + s.width <= u32::MAX,
        s.y + s.height <= u32::MAX,
    ensures
        r@.len() == (s.width as int) * (s.height as int),
        forall|dx: int, dy: int|
            0 <= dx < s.width && 0 <= dy < s.height ==> #[trigger] r@[dx * (s.height as int) + dy]
                == (((s.x + dx) as u32), ((s.y + dy) as u32)),
{
    let ghost w = s.width as int;
    let ghost h = s.height as int;
    let mut r: Vec<(u32, u32)> = Vec::new();
    proof {
        assert(0int * h == 0) by (nonlinear_arith);
    }
    let mut dx: u32 = 0;
    while dx < s.width
        invariant
            w == s.width as int,
            h == s.height as int,
            s.x + s.width <= u32::MAX,
            s.y + s.height <= u32::MAX,
            dx <= s.width,
            r@.len() == dx * h,
            forall|qx: int, qy: int|
                0 <= qx < dx && 0 <= qy < h ==> #[trigger] r@[qx * h + qy] == (((s.x + qx) as u32), (
                (s.y + qy) as u32)),
        decreases s.width - dx,
    {
        let mut dy: u32 = 0;
        while dy < s.height
            invariant
                w == s.width as int,
                h == s.height as int,
                s.x + s.width <= u32::MAX,
                s.y + s.height <= u32::MAX,
                dx < s.width,
                dy <= s.height,
                r@.len() == dx * h + dy,
                forall|qx: int, qy: int|
                    0 <= qx < dx && 0 <= qy < h ==> #[trigger] r@[qx * h + qy] == (((s.x + qx) as u32),
                    ((s.y + qy) as u32)),
                forall|qy: int|
                    0 <= qy < dy ==> #[trigger] r@[dx * h + qy] == (((s.x + dx) as u32), ((s.y
                        + qy) as u32)),
            decreases s.height - dy,
        {
            proof {
                assert(dx * h + h <= w * h) by (nonlinear_arith)
                    requires
                        dx + 1 <= w,
                        h >= 0,
                ;
            }
            let ghost old_r = r@;
            r.push((s.x + dx, s.y + dy));
            proof {
                assert forall|qx: int, qy: int| 0 <= qx < dx && 0 <= qy < h implies #[trigger] r@[qx
                    * h + qy] == (((s.x + qx) as u32), ((s.y + qy) as u32)) by {
                    assert(0 <= qx * h + qy < dx * h + dy) by (nonlinear_arith)
                        requires
                            0 <= qx,
                            qx + 1 <= dx,
                            0 <= qy < h,
                            0 <= dy,
                    ;
                    assert(r@[qx * h + qy] == old_r[qx * h + qy]);
                }
                assert forall|qy: int| 0 <= qy < dy + 1 implies #[trigger] r@[dx * h + qy] == (((s.x
                    + dx) as u32), ((s.y + qy) as u32)) by {
                    if qy < dy {
                        assert(0 <= dx * h + qy < dx * h + dy) by (nonlinear_arith)
                            requires
                                0 <= dx,
                                0 <= h,
                                0 <= qy < dy,
                        ;
                        assert(r@[dx * h + qy] == old_r[dx * h + qy]);
                    } else {
                        assert(r@[dx * h + dy] == old_r.push((((s.x + dx) as u32), ((s.y
                            + dy) as u32)))[old_r.len() as int]);
                    }
                }
            }
            dy = dy + 1;
        }
        proof {
            assert(dx * h + h == (dx + 1) * h) by (nonlinear_arith);
        }
        dx = dx + 1;
    }
    r
}

} // verus!
