//! Screen rectangles and the splitting policy that tiles a pane's rectangle
//! among its children: the usable run (total length minus the gaps between
//! siblings) is divided evenly, the first `usable % count` slots getting one
//! extra pixel. Results saturate at the coordinate limit instead of wrapping.

use vstd::prelude::*;

verus! {

/// Tiling direction of a pane: children side by side or stacked.
#[derive(Debug, Clone, Copy, PartialEq, Eq, Structural)]
pub enum Directionality {
    Horizontal,
    Vertical,
}

/// Where a new leaf goes relative to the focused one.
#[derive(Debug, Clone, Copy, PartialEq, Eq, Structural)]
pub enum Direction {
    Up,
    Down,
    Left,
    Right,
}

impl Direction {
    /// Up/Down ask for a vertical pane, Left/Right for a horizontal one.
    pub open spec fn spec_directionality(self) -> Directionality {
        match self {
            Direction::Up | Direction::Down => Directionality::Vertical,
            Direction::Left | Direction::Right => Directionality::Horizontal,
        }
    }

    pub fn directionality(self) -> (d: Directionality)
        ensures
            d == self.spec_directionality(),
    {
        match self {
            Direction::Up | Direction::Down => Directionality::Vertical,
            Direction::Left | Direction::Right => Directionality::Horizontal,
        }
    }

    /// Down/Right place the new leaf after the pivot, Up/Left before it.
    pub open spec fn spec_is_after(self) -> bool {
        match self {
            Direction::Down | Direction::Right => true,
            Direction::Up | Direction::Left => false,
        }
    }

    pub fn is_after(self) -> (b: bool)
        ensures
            b == self.spec_is_after(),
    {
        match self {
            Direction::Down | Direction::Right => true,
            Direction::Up | Direction::Left => false,
        }
    }
}

/// A rectangle on the screen: position and size in pixels.
#[derive(Debug, Clone, Copy, PartialEq, Eq, Structural)]
pub struct Dimensions {
    pub x: u16,
    pub y: u16,
    pub width: u16,
    pub height: u16,
}

/// Clamp a coordinate at the 16-bit limit instead of wrapping.
pub open spec fn sat16(v: int) -> int {
    if v > 0xFFFF {
        0xFFFF
    } else {
        v
    }
}

/// The extent of `d` along the split axis.
pub open spec fn run_length(d: Dimensions, dir: Directionality) -> int {
    if dir == Directionality::Horizontal {
        d.width as int
    } else {
        d.height as int
    }
}

/// The start coordinate of `d` along the split axis.
pub open spec fn run_start(d: Dimensions, dir: Directionality) -> int {
    if dir == Directionality::Horizontal {
        d.x as int
    } else {
        d.y as int
    }
}

/// Length left for the children once the `count - 1` gaps are taken out,
/// floored at zero.
pub open spec fn usable_length(total: int, gap: int, count: int) -> int {
    if gap * (count - 1) <= total {
        total - gap * (count - 1)
    } else {
        0
    }
}

/// Length of slot `i`: the even share, plus one pixel for the first
/// `usable % count` slots.
pub open spec fn slot_length(total: int, gap: int, count: int, i: int) -> int {
    let u = usable_length(total, gap, count);
    u / count + if i < u % count {
        1int
    } else {
        0int
    }
}

/// Start coordinate of slot `i` along the split axis.
pub open spec fn slot_start(start: int, total: int, gap: int, count: int, i: int) -> int {
    let u = usable_length(total, gap, count);
    let base = u / count;
    let excess = u % count;
    sat16(
        start + i * (base + gap) + if i < excess {
            i
        } else {
            excess
        },
    )
}

/// The rectangle of slot `i` when `d` is split into `count` slots along
/// `dir` with `gap` pixels between siblings. The cross axis is untouched.
#[verifier::opaque]
pub open spec fn split_slot(d: Dimensions, dir: Directionality, count: int, gap: int, i: int) -> Dimensions {
    if dir == Directionality::Horizontal {
        Dimensions {
            x: slot_start(d.x as int, d.width as int, gap, count, i) as u16,
            y: d.y,
            width: slot_length(d.width as int, gap, count, i) as u16,
            height: d.height,
        }
    } else {
        Dimensions {
            x: d.x,
            y: slot_start(d.y as int, d.height as int, gap, count, i) as u16,
            width: d.width,
            height: slot_length(d.height as int, gap, count, i) as u16,
        }
    }
}

/// All `count` slots, in order.
pub open spec fn split_spec(d: Dimensions, dir: Directionality, count: int, gap: int) -> Seq<Dimensions> {
    Seq::new(count as nat, |i: int| split_slot(d, dir, count, gap, i))
}

impl Dimensions {
    /// Split this rectangle along `direction` into `count` slots separated by
    /// `gap` pixels, following the splitting policy above.
    pub fn split(self, direction: Directionality, count: usize, gap: u16) -> (r: Vec<Dimensions>)
        requires
            1 <= count <= 0xFFFF,
        ensures
            r@.len() == count,
            forall|i: int|
                0 <= i < count ==> r@[i] == split_slot(
                    self,
                    direction,
                    count as int,
                    gap as int,
                    i,
                ),
            r@ == split_spec(self, direction, count as int, gap as int),
    {
        let total: u64 = if direction == Directionality::Horizontal {
            self.width as u64
        } else {
            self.height as u64
        };
        let start: u64 = if direction == Directionality::Horizontal {
            self.x as u64
        } else {
            self.y as u64
        };
        let g = gap as u64;
        let n = count as u64;
        proof {
            assert(g * (n - 1) <= 0xFFFF * 0xFFFF) by (nonlinear_arith)
                requires
                    g <= 0xFFFF,
                    0 <= n - 1 <= 0xFFFF,
            ;
        }
        let gaps = g * (n - 1);
        let usable: u64 = if gaps <= total {
            total - gaps
        } else {
            0
        };
        let base = usable / n;
        let excess = usable % n;
        let mut out: Vec<Dimensions> = Vec::new();
        let mut i: u64 = 0;
        while i < n
            invariant
                1 <= n <= 0xFFFF,
                0 <= i <= n,
                g <= 0xFFFF,
                total <= 0xFFFF,
                usable == usable_length(total as int, g as int, n as int),
                base == usable / n,
                excess == usable % n,
                start <= 0xFFFF,
                total == run_length(self, direction),
                start == run_start(self, direction),
                out@.len() == i,
                forall|j: int|
                    0 <= j < i ==> out@[j] == split_slot(
                        self,
                        direction,
                        n as int,
                        g as int,
                        j,
                    ),
            decreases n - i,
        {
            proof {
                assert(usable <= total);
                assert(base <= usable) by (nonlinear_arith)
                    requires
                        1 <= n,
                        0 <= usable,
                        base == usable / n,
                ;
                assert(0 <= excess < n) by (nonlinear_arith)
                    requires
                        1 <= n,
                        0 <= usable,
                        excess == usable % n,
                ;
                assert(i * (base + g) <= 0xFFFF * (base + g)) by (nonlinear_arith)
                    requires
                        0 <= i <= 0xFFFF,
                        0 <= base + g,
                ;
            }
            let off = i * (base + g) + if i < excess {
                i
            } else {
                excess
            };
            let s_raw = start + off;
            let s: u16 = if s_raw > 0xFFFF {
                0xFFFF
            } else {
                s_raw as u16
            };
            proof {
                if 1 < n {
                    assert(base <= usable / 2) by (nonlinear_arith)
                        requires
                            2 <= n,
                            0 <= usable,
                            base == usable / n,
                    ;
                }
                if i < excess {
                    assert(excess == 0 ==> !(i < excess));
                }
            }
            let len_i: u16 = (base + if i < excess {
                1
            } else {
                0
            }) as u16;
            let dcur = if direction == Directionality::Horizontal {
                Dimensions { x: s, y: self.y, width: len_i, height: self.height }
            } else {
                Dimensions { x: self.x, y: s, width: self.width, height: len_i }
            };
            proof {
                reveal(split_slot);
                assert(dcur == split_slot(self, direction, n as int, g as int, i as int));
            }
            out.push(dcur);
            i = i + 1;
        }
        proof {
            assert(out@ =~= split_spec(self, direction, count as int, gap as int));
        }
        out
    }
}

/// Sum of the lengths of the first `upto` slots.
pub open spec fn sum_slot_lengths(total: int, gap: int, count: int, upto: int) -> int
    decreases upto,
{
    if upto <= 0 {
        0
    } else {
        sum_slot_lengths(total, gap, count, upto - 1) + slot_length(total, gap, count, upto - 1)
    }
}

proof fn lemma_sum_partial(total: int, gap: int, count: int, upto: int)
    requires
        1 <= count,
        0 <= upto <= count,
    ensures
        sum_slot_lengths(total, gap, count, upto) == upto * (usable_length(total, gap, count)
            / count) + if upto <= usable_length(total, gap, count) % count {
            upto
        } else {
            usable_length(total, gap, count) % count
        },
    decreases upto,
{
    let u = usable_length(total, gap, count);
    let base = u / count;
    let excess = u % count;
    if upto > 0 {
        lemma_sum_partial(total, gap, count, upto - 1);
        assert(upto * base == (upto - 1) * base + base) by (nonlinear_arith);
        assert(slot_length(total, gap, count, upto - 1) == base + if upto - 1 < excess {
            1int
        } else {
            0int
        });
        if upto <= excess {
            assert(upto - 1 < excess);
        } else {
            assert(!(upto - 1 < excess));
        }
    } else {
        assert(upto * base == 0) by (nonlinear_arith)
            requires
                upto == 0,
        ;
    }
}

/// The slots of a run with room for its gaps have lengths that sum exactly
/// to the run minus the gaps, and that pairwise differ by at most one pixel.
pub proof fn lemma_split_lengths(total: int, gap: int, count: int)
    requires
        1 <= count,
        0 <= gap,
        0 <= total,
        gap * (count - 1) <= total,
    ensures
        sum_slot_lengths(total, gap, count, count) == total - gap * (count - 1),
        forall|i: int, j: int|
            0 <= i < count && 0 <= j < count ==> slot_length(total, gap, count, i) - slot_length(
                total,
                gap,
                count,
                j,
            ) <= 1,
{
    let u = usable_length(total, gap, count);
    lemma_sum_partial(total, gap, count, count);
    vstd::arithmetic::div_mod::lemma_fundamental_div_mod(u, count);
    assert(0 <= u % count < count) by (nonlinear_arith)
        requires
            1 <= count,
    ;
    assert(count * (u / count) == (u / count) * count) by (nonlinear_arith);
}

/// Facts shared by the tiling lemmas: with room for the gaps and no
/// coordinate overflow, no slot saturates.
proof fn lemma_split_bounds(start: int, total: int, gap: int, count: int, i: int)
    requires
        1 <= count,
        0 <= gap,
        0 <= total,
        0 <= start,
        gap * (count - 1) <= total,
        start + total <= 0xFFFF,
        0 <= i < count,
    ensures
        slot_start(start, total, gap, count, i) == start + i * ((usable_length(total, gap, count)
            / count) + gap) + if i < usable_length(total, gap, count) % count {
            i
        } else {
            usable_length(total, gap, count) % count
        },
        start <= slot_start(start, total, gap, count, i),
        slot_start(start, total, gap, count, i) + slot_length(total, gap, count, i) <= start
            + total,
{
    let u = usable_length(total, gap, count);
    let base = u / count;
    let excess = u % count;
    vstd::arithmetic::div_mod::lemma_fundamental_div_mod(u, count);
    assert(0 <= excess < count) by (nonlinear_arith)
        requires
            1 <= count,
            excess == u % count,
    ;
    assert(0 <= base) by (nonlinear_arith)
        requires
            1 <= count,
            0 <= u,
            base == u / count,
    ;
    let minie: int = if i < excess {
        i
    } else {
        excess
    };
    let leni = slot_length(total, gap, count, i);
    assert(leni == base + if i < excess {
        1int
    } else {
        0int
    });
    // end of slot i is at most the end of the last slot, which equals start + total
    assert(i * (base + gap) + minie + leni <= (count - 1) * (base + gap) + excess + base)
        by (nonlinear_arith)
        requires
            0 <= i < count,
            0 <= base,
            0 <= gap,
            0 <= excess,
            minie == if i < excess {
                i
            } else {
                excess
            },
            leni == base + if i < excess {
                1int
            } else {
                0int
            },
    ;
    assert((count - 1) * (base + gap) + excess + base == u + gap * (count - 1))
        by (nonlinear_arith)
        requires
            u == count * (u / count) + u % count,
            base == u / count,
            excess == u % count,
    ;
    assert(u + gap * (count - 1) == total);
    assert(i * (base + gap) >= 0) by (nonlinear_arith)
        requires
            0 <= i,
            0 <= base + gap,
    ;
    assert(start + i * (base + gap) + minie <= 0xFFFF);
}

/// With room for the gaps and no coordinate overflow, the slots tile the
/// run exactly: the first slot begins at the run's start, every next slot
/// begins one gap after the previous one ends, the last slot ends at the
/// run's end, and every slot lies within the run. The cross axis is kept.
pub proof fn lemma_split_tiles(d: Dimensions, dir: Directionality, count: int, gap: int)
    requires
        1 <= count <= 0xFFFF,
        0 <= gap <= 0xFFFF,
        gap * (count - 1) <= run_length(d, dir),
        run_start(d, dir) + run_length(d, dir) <= 0xFFFF,
    ensures
        run_start(split_slot(d, dir, count, gap, 0), dir) == run_start(d, dir),
        forall|i: int|
            0 <= i < count - 1 ==> run_start(split_slot(d, dir, count, gap, i + 1), dir)
                == run_start(split_slot(d, dir, count, gap, i), dir) + run_length(
                split_slot(d, dir, count, gap, i),
                dir,
            ) + gap,
        run_start(split_slot(d, dir, count, gap, count - 1), dir) + run_length(
            split_slot(d, dir, count, gap, count - 1),
            dir,
        ) == run_start(d, dir) + run_length(d, dir),
        forall|i: int|
            0 <= i < count ==> run_start(d, dir) <= run_start(split_slot(d, dir, count, gap, i), dir)
                && run_start(split_slot(d, dir, count, gap, i), dir) + run_length(
                split_slot(d, dir, count, gap, i),
                dir,
            ) <= run_start(d, dir) + run_length(d, dir),
        forall|i: int|
            0 <= i < count ==> run_start(split_slot(d, dir, count, gap, i), dir2(dir)) == run_start(
                d,
                dir2(dir),
            ) && run_length(split_slot(d, dir, count, gap, i), dir2(dir)) == run_length(
                d,
                dir2(dir),
            ),
{
    reveal(split_slot);
    let start = run_start(d, dir);
    let total = run_length(d, dir);
    let u = usable_length(total, gap, count);
    let base = u / count;
    let excess = u % count;
    vstd::arithmetic::div_mod::lemma_fundamental_div_mod(u, count);
    assert(0 <= excess < count) by (nonlinear_arith)
        requires
            1 <= count,
            excess == u % count,
    ;
    assert(0 <= base) by (nonlinear_arith)
        requires
            1 <= count,
            0 <= u,
            base == u / count,
    ;
    assert forall|i: int| 0 <= i < count implies start <= slot_start(start, total, gap, count, i)
        && slot_start(start, total, gap, count, i) + slot_length(total, gap, count, i) <= start
        + total by {
        lemma_split_bounds(start, total, gap, count, i);
    }
    assert forall|i: int| 0 <= i < count - 1 implies slot_start(start, total, gap, count, i + 1)
        == slot_start(start, total, gap, count, i) + slot_length(total, gap, count, i) + gap by {
        lemma_split_bounds(start, total, gap, count, i);
        lemma_split_bounds(start, total, gap, count, i + 1);
        assert((i + 1) * (base + gap) == i * (base + gap) + (base + gap)) by (nonlinear_arith);
    }
    lemma_split_bounds(start, total, gap, count, count - 1);
    assert(slot_length(total, gap, count, count - 1) == base);
    assert((count - 1) * (base + gap) + excess + base == u + gap * (count - 1))
        by (nonlinear_arith)
        requires
            u == count * (u / count) + u % count,
            base == u / count,
            excess == u % count,
    ;
    assert(u + gap * (count - 1) == total);
    assert(slot_start(start, total, gap, count, count - 1) + slot_length(total, gap, count, count
        - 1) == start + total);
    lemma_split_bounds(start, total, gap, count, 0);
    assert(slot_start(start, total, gap, count, 0) == start);
}

/// The other axis.
pub open spec fn dir2(dir: Directionality) -> Directionality {
    if dir == Directionality::Horizontal {
        Directionality::Vertical
    } else {
        Directionality::Horizontal
    }
}

} // verus!
