//! The integer side of a grid battle: obstacle strength, damage and the
//! colours that show them.

use vstd::prelude::*;

verus! {

/// `v`, or 255 when it is larger.
pub open spec fn capped(v: u16) -> u8 {
    if v > 255 {
        255
    } else {
        v as u8
    }
}

/// The colour of an obstacle of strength `o`: red grows with the strength and
/// saturates, green and blue follow its high bits.
pub fn obstacle_color(obstacle: u16) -> (rgb: (u8, u8, u8))
    ensures
        rgb == (capped(obstacle >> 5u16), (obstacle >> 9u16) as u8, (obstacle >> 10u16) as u8),
{
    let r = obstacle >> 5u16;
    let r8: u8 = if r > 255 {
        255
    } else {
        r as u8
    };
    (r8, (obstacle >> 9u16) as u8, (obstacle >> 10u16) as u8)
}

/// The colour of a cell hit `hits` times this turn, if it was hit.
pub fn damage_color(hits: u16) -> (rgb: Option<(u8, u8, u8)>)
    ensures
        hits == 0 ==> rgb is None,
        hits > 0 ==> rgb == Some((255u8, capped(hits), 0u8)),
{
    if hits > 0 {
        let g: u8 = if hits > 255 {
            255
        } else {
            hits as u8
        };
        Some((255, g, 0))
    } else {
        None
    }
}

/// The colour of a soldier with `health` left.
pub fn soldier_color(health: u16) -> (rgb: (u8, u8, u8))
    ensures
        rgb == (20u8, 210u8, capped(health)),
{
    let b: u8 = if health > 255 {
        255
    } else {
        health as u8
    };
    (20, 210, b)
}

/// The obstacle strength left after `hits`: it goes down by the hits, not below zero.
pub open spec fn worn(o: u16, hits: u16) -> u16 {
    if o >= hits {
        (o - hits) as u16
    } else {
        0
    }
}

/// Wears each obstacle down by the damage done to its cell.
pub fn apply_damage(static_obstacles: &mut Vec<u16>, damage: &Vec<u16>)
    requires
        damage.len() <= old(static_obstacles).len(),
    ensures
        final(static_obstacles).len() == old(static_obstacles).len(),
        forall|i: int|
            0 <= i < damage.len() ==> #[trigger] final(static_obstacles)@[i] == worn(
                old(static_obstacles)@[i],
                damage@[i],
            ),
        forall|i: int|
            damage.len() <= i < old(static_obstacles).len() ==> #[trigger] final(static_obstacles)@[i]
                == old(static_obstacles)@[i],
{
    let ghost start = static_obstacles@;
    let mut i: usize = 0;
    while i < damage.len()
        invariant
            damage.len() <= static_obstacles.len(),
            static_obstacles.len() == start.len(),
            i <= damage.len(),
            forall|j: int| 0 <= j < i ==> #[trigger] static_obstacles@[j] == worn(start[j], damage@[j]),
            forall|j: int| i <= j < start.len() ==> #[trigger] static_obstacles@[j] == start[j],
        decreases damage.len() - i,
    {
        let left = static_obstacles[i].saturating_sub(damage[i]);
        static_obstacles.set(i, left);
        i = i + 1;
    }
}

/// The corner of barrier `k`, for `k` below ten.
pub open spec fn barrier_origin(k: int) -> (int, int) {
    if k == 0 {
        (0, 50)
    } else if k == 1 {
        (50, 140)
    } else if k == 2 {
        (100, 80)
    } else if k == 3 {
        (120, 140)
    } else if k == 4 {
        (140, 50)
    } else if k == 5 {
        (200, 75)
    } else if k == 6 {
        (250, 200)
    } else if k == 7 {
        (400, 90)
    } else if k == 8 {
        (500, 80)
    } else {
        (300, 130)
    }
}

fn origin(k: usize) -> (o: (usize, usize))
    requires
        k < 10,
    ensures
        o.0 == barrier_origin(k as int).0,
        o.1 == barrier_origin(k as int).1,
{
    if k == 0 {
        (0, 50)
    } else if k == 1 {
        (50, 140)
    } else if k == 2 {
        (100, 80)
    } else if k == 3 {
        (120, 140)
    } else if k == 4 {
        (140, 50)
    } else if k == 5 {
        (200, 75)
    } else if k == 6 {
        (250, 200)
    } else if k == 7 {
        (400, 90)
    } else if k == 8 {
        (500, 80)
    } else {
        (300, 130)
    }
}

/// The buffer index that cell `dx, dy` of barrier `k` falls on in a grid `width` wide.
pub open spec fn barrier_index(k: int, dy: int, dx: int, width: int) -> int {
    (barrier_origin(k).1 + dy) * width + barrier_origin(k).0 + dx
}

/// Every cell of every barrier falls inside a `width` by `height` grid.
pub open spec fn barriers_fit(width: int, height: int) -> bool {
    forall|k: int| 0 <= k < 10 ==> #[trigger] barrier_index(k, 23, 59, width) < width * height
}

/// The barrier cell `(k, dy, dx)` comes before `(k2, dy2, dx2)`, in the order in
/// which barriers are laid: barrier by barrier, row by row, cell by cell.
pub open spec fn laid_before(k: int, dy: int, dx: int, k2: int, dy2: int, dx2: int) -> bool {
    k < k2 || (k == k2 && (dy < dy2 || (dy == dy2 && dx < dx2)))
}

/// Buffer index `i` is covered by a barrier cell laid before `(k2, dy2, dx2)`.
pub open spec fn covered_before(i: int, width: int, k2: int, dy2: int, dx2: int) -> bool {
    exists|k: int, dy: int, dx: int|
        0 <= k < 10 && 0 <= dy < 24 && 0 <= dx < 60 && laid_before(k, dy, dx, k2, dy2, dx2)
            && #[trigger] barrier_index(k, dy, dx, width) == i
}

/// Buffer index `i` is covered by some barrier.
pub open spec fn covered(i: int, width: int) -> bool {
    covered_before(i, width, 10, 0, 0)
}

proof fn lemma_barrier_index_fits(k: int, dy: int, dx: int, width: int, height: int)
    requires
        0 <= k < 10,
        0 <= dy < 24,
        0 <= dx < 60,
        width >= 0,
        barriers_fit(width, height),
    ensures
        0 <= barrier_index(k, dy, dx, width) < width * height,
{
    assert(barrier_index(k, 23, 59, width) < width * height);
    let (x0, y0) = barrier_origin(k);
    vstd::arithmetic::mul::lemma_mul_inequality(y0 + dy, y0 + 23, width);
    vstd::arithmetic::mul::lemma_mul_nonnegative(y0 + dy, width);
}

proof fn lemma_same_cell(a: int, b: int, c: int, d: int, w: int)
    requires
        w > 0,
        0 <= b < w,
        0 <= d < w,
        a * w + b == c * w + d,
    ensures
        a == c,
        b == d,
{
    assert(a == c) by (nonlinear_arith)
        requires
            w > 0,
            0 <= b < w,
            0 <= d < w,
            a * w + b == c * w + d,
    ;
}

/// In a grid at least 560 cells wide, so that every barrier fits in its rows,
/// the cell in column `x` of row `y` lies under a barrier exactly when it lies
/// in the 60 columns and 24 rows from one of the ten barrier corners (0, 50),
/// (50, 140), (100, 80), (120, 140), (140, 50), (200, 75), (250, 200),
/// (400, 90), (500, 80) and (300, 130); `reset_obstacles` gives such cells
/// 2000 and the others 0.
pub proof fn law_barrier_cells(width: int, x: int, y: int)
    requires
        width >= 560,
        0 <= x < width,
        0 <= y,
    ensures
        covered(y * width + x, width) <==> {
            ||| 0 <= x < 60 && 50 <= y < 74
            ||| 50 <= x < 110 && 140 <= y < 164
            ||| 100 <= x < 160 && 80 <= y < 104
            ||| 120 <= x < 180 && 140 <= y < 164
            ||| 140 <= x < 200 && 50 <= y < 74
            ||| 200 <= x < 260 && 75 <= y < 99
            ||| 250 <= x < 310 && 200 <= y < 224
            ||| 400 <= x < 460 && 90 <= y < 114
            ||| 500 <= x < 560 && 80 <= y < 104
            ||| 300 <= x < 360 && 130 <= y < 154
        },
{
    let i = y * width + x;
    if covered(i, width) {
        let (k, dy, dx) = choose|k: int, dy: int, dx: int|
            0 <= k < 10 && 0 <= dy < 24 && 0 <= dx < 60 && laid_before(k, dy, dx, 10, 0, 0)
                && #[trigger] barrier_index(k, dy, dx, width) == i;
        let (x0, y0) = barrier_origin(k);
        assert(0 <= x0 + dx < width) by {
            if k == 0 {} else if k == 1 {} else if k == 2 {} else if k == 3 {} else if k == 4 {}
            else if k == 5 {} else if k == 6 {} else if k == 7 {} else if k == 8 {} else {}
        }
        lemma_same_cell(y0 + dy, x0 + dx, y, x, width);
        if k == 0 {} else if k == 1 {} else if k == 2 {} else if k == 3 {} else if k == 4 {}
        else if k == 5 {} else if k == 6 {} else if k == 7 {} else if k == 8 {} else {}
    } else {
        let corners = seq![(0int, 50int), (50, 140), (100, 80), (120, 140), (140, 50), (200, 75), (250, 200),
            (400, 90), (500, 80), (300, 130)];
        assert forall|k: int| 0 <= k < 10 implies #[trigger] barrier_origin(k) == corners[k] by {
            if k == 0 {} else if k == 1 {} else if k == 2 {} else if k == 3 {} else if k == 4 {}
            else if k == 5 {} else if k == 6 {} else if k == 7 {} else if k == 8 {} else {}
        }
        assert forall|k: int| #![trigger corners[k]] 0 <= k < 10 && corners[k].0 <= x < corners[k].0 + 60 && corners[k].1 <= y
            < corners[k].1 + 24 implies false by {
            let dy = y - corners[k].1;
            let dx = x - corners[k].0;
            assert(barrier_origin(k) == corners[k]);
            assert(barrier_index(k, dy, dx, width) == i);
            assert(laid_before(k, dy, dx, 10, 0, 0));
        }
        assert(corners[0] == (0int, 50int));
        assert(corners[1] == (50int, 140int));
        assert(corners[2] == (100int, 80int));
        assert(corners[3] == (120int, 140int));
        assert(corners[4] == (140int, 50int));
        assert(corners[5] == (200int, 75int));
        assert(corners[6] == (250int, 200int));
        assert(corners[7] == (400int, 90int));
        assert(corners[8] == (500int, 80int));
        assert(corners[9] == (300int, 130int));
    }
}

/// The strength of every cell of a `width` by `height` grid at the start of a
/// battle: 2000 where a barrier stands, 0 elsewhere. Ten barriers of 60 by 24
/// cells stand at fixed corners.
pub fn reset_obstacles(width: usize, height: usize) -> (obstacles: Vec<u16>)
    requires
        width * height <= usize::MAX,
        barriers_fit(width as int, height as int),
    ensures
        obstacles.len() == width * height,
        forall|i: int|
            0 <= i < obstacles.len() ==> #[trigger] obstacles@[i] == if covered(i, width as int) {
                2000u16
            } else {
                0u16
            },
{
    let total = width * height;
    let mut obstacles: Vec<u16> = Vec::new();
    while obstacles.len() < total
        invariant
            obstacles.len() <= total,
            forall|i: int| 0 <= i < obstacles.len() ==> #[trigger] obstacles@[i] == 0,
        decreases total - obstacles.len(),
    {
        obstacles.push(0);
    }
    let ghost w = width as int;
    let mut k: usize = 0;
    while k < 10
        invariant
            total == width * height,
            w == width,
            barriers_fit(w, height as int),
            obstacles.len() == total,
            k <= 10,
            forall|i: int|
                0 <= i < total ==> #[trigger] obstacles@[i] == if covered_before(i, w, k as int, 0, 0) {
                    2000u16
                } else {
                    0u16
                },
        decreases 10 - k,
    {
        let (x0, y0) = origin(k);
        let mut dy: usize = 0;
        while dy < 24
            invariant
                total == width * height,
                w == width,
                barriers_fit(w, height as int),
                obstacles.len() == total,
                k < 10,
                x0 == barrier_origin(k as int).0,
                y0 == barrier_origin(k as int).1,
                dy <= 24,
                forall|i: int|
                    0 <= i < total ==> #[trigger] obstacles@[i] == if covered_before(
                        i,
                        w,
                        k as int,
                        dy as int,
                        0,
                    ) {
                        2000u16
                    } else {
                        0u16
                    },
            decreases 24 - dy,
        {
            let yi = y0 + dy;
            let mut dx: usize = 0;
            while dx < 60
                invariant
                    total == width * height,
                    w == width,
                    barriers_fit(w, height as int),
                    obstacles.len() == total,
                    k < 10,
                    dy < 24,
                    x0 == barrier_origin(k as int).0,
                    y0 == barrier_origin(k as int).1,
                    yi == y0 + dy,
                    dx <= 60,
                    forall|i: int|
                        0 <= i < total ==> #[trigger] obstacles@[i] == if covered_before(
                            i,
                            w,
                            k as int,
                            dy as int,
                            dx as int,
                        ) {
                            2000u16
                        } else {
                            0u16
                        },
                decreases 60 - dx,
            {
                proof {
                    lemma_barrier_index_fits(k as int, dy as int, dx as int, w, height as int);
                }
                let xi = x0 + dx;
                let ind = yi * width + xi;
                assert(ind == barrier_index(k as int, dy as int, dx as int, w));
                obstacles.set(ind, 2000);
                proof {
                    assert forall|i: int| 0 <= i < total implies #[trigger] obstacles@[i] == if covered_before(
                        i,
                        w,
                        k as int,
                        dy as int,
                        dx + 1,
                    ) {
                        2000u16
                    } else {
                        0u16
                    } by {
                        if i == ind {
                            assert(barrier_index(k as int, dy as int, dx as int, w) == i);
                            assert(covered_before(i, w, k as int, dy as int, dx + 1));
                        } else {
                            if covered_before(i, w, k as int, dy as int, dx + 1) {
                                let (a, b, c) = choose|a: int, b: int, c: int|
                                    0 <= a < 10 && 0 <= b < 24 && 0 <= c < 60 && laid_before(
                                        a,
                                        b,
                                        c,
                                        k as int,
                                        dy as int,
                                        dx + 1,
                                    ) && #[trigger] barrier_index(a, b, c, w) == i;
                                assert(laid_before(a, b, c, k as int, dy as int, dx as int));
                            }
                        }
                    }
                }
                dx = dx + 1;
            }
            proof {
                assert forall|i: int| 0 <= i < total implies covered_before(i, w, k as int, dy as int, 60)
                    == covered_before(i, w, k as int, dy + 1, 0) by {
                    if covered_before(i, w, k as int, dy + 1, 0) {
                        let (a, b, c) = choose|a: int, b: int, c: int|
                            0 <= a < 10 && 0 <= b < 24 && 0 <= c < 60 && laid_before(
                                a,
                                b,
                                c,
                                k as int,
                                dy + 1,
                                0,
                            ) && #[trigger] barrier_index(a, b, c, w) == i;
                        assert(laid_before(a, b, c, k as int, dy as int, 60));
                    }
                    if covered_before(i, w, k as int, dy as int, 60) {
                        let (a, b, c) = choose|a: int, b: int, c: int|
                            0 <= a < 10 && 0 <= b < 24 && 0 <= c < 60 && laid_before(
                                a,
                                b,
                                c,
                                k as int,
                                dy as int,
                                60,
                            ) && #[trigger] barrier_index(a, b, c, w) == i;
                        assert(laid_before(a, b, c, k as int, dy + 1, 0));
                    }
                }
            }
            dy = dy + 1;
        }
        proof {
            assert forall|i: int| 0 <= i < total implies covered_before(i, w, k as int, 24, 0)
                == covered_before(i, w, k + 1, 0, 0) by {
                if covered_before(i, w, k + 1, 0, 0) {
                    let (a, b, c) = choose|a: int, b: int, c: int|
                        0 <= a < 10 && 0 <= b < 24 && 0 <= c < 60 && laid_before(a, b, c, k + 1, 0, 0)
                            && #[trigger] barrier_index(a, b, c, w) == i;
                    assert(laid_before(a, b, c, k as int, 24, 0));
                }
                if covered_before(i, w, k as int, 24, 0) {
                    let (a, b, c) = choose|a: int, b: int, c: int|
                        0 <= a < 10 && 0 <= b < 24 && 0 <= c < 60 && laid_before(
                            a,
                            b,
                            c,
                            k as int,
                            24,
                            0,
                        ) && #[trigger] barrier_index(a, b, c, w) == i;
                    assert(laid_before(a, b, c, k + 1, 0, 0));
                }
            }
        }
        k = k + 1;
    }
    obstacles
}

} // verus!
