//! The hold picker: maps a point in board-local space to the nearest
//! eligible placement, subject to a squared-distance acceptance
//! threshold.
//!
//! Board-local space is measured in integer micro-units (one millionth
//! of a board unit), so a hole's position is
//! `(hole.x, hole.y) * scale + offset` with `scale` and `offset` also in
//! micro-units. Callers working in floating-point board units convert
//! at the boundary.

use vstd::prelude::*;

use crate::data::{Hole, KilterData, ROUTE_LAYOUT_ID};

verus! {

/// One micro-unit scale: how many micro-units make one board unit.
pub const MICRO_PER_UNIT: i64 = 1_000_000;

/// The picker's acceptance threshold of 1/100 of a square board unit,
/// in square micro-units.
pub const PICK_THRESHOLD_SQ: i64 = 10_000_000_000;

/// A click is dropped while a drag is in flight: the accumulated drag
/// distance, in square pixels, above which a click is not a selection.
pub const DRAG_CANCEL_SQ: i64 = 256;

/// Largest magnitude the picker accepts for the scale factor.
pub const SCALE_LIMIT: i64 = 1_000_000_000;

/// Largest magnitude the picker accepts for offsets and query points.
pub const COORD_LIMIT: i64 = 1_000_000_000_000;

/// The linear map from raw hole coordinates into board-local space, in
/// micro-units.
#[derive(Clone, Copy, Debug, PartialEq, Eq, Structural)]
pub struct KilterSettings {
    pub offset_x: i64,
    pub offset_y: i64,
    pub scale: i64,
}

impl Default for KilterSettings {
    /// The board's stock calibration: offset (-1.81, -1.96) board
    /// units, scale 0.0251, both in micro-units.
    fn default() -> (s: Self)
        ensures
            s.offset_x == -1_810_000,
            s.offset_y == -1_960_000,
            s.scale == 25_100,
    {
        KilterSettings { offset_x: -1_810_000, offset_y: -1_960_000, scale: 25_100 }
    }
}

/// Board-local x position of a hole under the given calibration.
pub open spec fn board_x(h: Hole, s: KilterSettings) -> int {
    h.x * s.scale + s.offset_x
}

/// Board-local y position of a hole under the given calibration.
pub open spec fn board_y(h: Hole, s: KilterSettings) -> int {
    h.y * s.scale + s.offset_y
}

/// Squared Euclidean distance between two points.
pub open spec fn dist_sq(ax: int, ay: int, bx: int, by: int) -> int {
    (ax - bx) * (ax - bx) + (ay - by) * (ay - by)
}

/// The hole with the given id (meaningful under table uniqueness when
/// one exists).
pub open spec fn hole_with_id(holes: Seq<Hole>, id: u32) -> Hole {
    holes[choose|j: int| 0 <= j < holes.len() && holes[j].id == id]
}

/// Does some hole carry the given id?
pub open spec fn has_hole(holes: Seq<Hole>, id: u32) -> bool {
    exists|j: int| 0 <= j < holes.len() && #[trigger] holes[j].id == id
}

impl KilterData {
    /// Is the placement at index `i` a candidate for picking: on the
    /// route layout, with its hole present in the reference data?
    pub open spec fn pick_eligible(&self, i: int) -> bool {
        &&& 0 <= i < self.placements@.len()
        &&& self.placements@[i].layout_id == ROUTE_LAYOUT_ID
        &&& has_hole(self.holes@, self.placements@[i].hole_id)
    }

    /// Squared distance from the query point to the hole of the
    /// placement at index `i`, in square micro-units.
    pub open spec fn pick_dist_sq(&self, s: KilterSettings, i: int, qx: int, qy: int) -> int {
        let h = hole_with_id(self.holes@, self.placements@[i].hole_id);
        dist_sq(board_x(h, s), board_y(h, s), qx, qy)
    }

    /// Finds the placement on the route layout whose hole lies nearest
    /// to the query point, provided it lies within the threshold.
    /// Distances tie towards the placement that stands earliest in the
    /// table. Returns nothing when no placement is eligible or the
    /// nearest eligible hole is farther than the threshold.
    ///
    /// The magnitude bounds on the calibration and the query keep every
    /// intermediate product within machine integers.
    pub fn pick_placement(&self, s: KilterSettings, qx: i64, qy: i64, threshold_sq: i64) -> (r:
        Option<u32>)
        requires
            self.wf(),
            -SCALE_LIMIT <= s.scale <= SCALE_LIMIT,
            -COORD_LIMIT <= s.offset_x <= COORD_LIMIT,
            -COORD_LIMIT <= s.offset_y <= COORD_LIMIT,
            -COORD_LIMIT <= qx <= COORD_LIMIT,
            -COORD_LIMIT <= qy <= COORD_LIMIT,
            0 <= threshold_sq,
        ensures
            r is Some <==> exists|i: int|
                self.pick_eligible(i) && #[trigger] self.pick_dist_sq(s, i, qx as int, qy as int)
                    <= threshold_sq,
            r matches Some(id) ==> exists|i: int|
                {
                    &&& #[trigger] self.pick_eligible(i)
                    &&& self.placements@[i].id == id
                    &&& self.pick_dist_sq(s, i, qx as int, qy as int) <= threshold_sq
                    &&& forall|j: int|
                        self.pick_eligible(j) ==> #[trigger] self.pick_dist_sq(s, j, qx as int, qy as int)
                            >= self.pick_dist_sq(s, i, qx as int, qy as int)
                    &&& forall|j: int|
                        j < i && self.pick_eligible(j) ==> #[trigger] self.pick_dist_sq(
                            s,
                            j,
                            qx as int,
                            qy as int,
                        ) > self.pick_dist_sq(s, i, qx as int, qy as int)
                },
    {
        let n = self.placements.len();
        let mut best: Option<(u32, i128)> = None;
        let ghost mut best_idx: int = 0;
        let mut i: usize = 0;
        while i < n
            invariant
                self.wf(),
                -SCALE_LIMIT <= s.scale <= SCALE_LIMIT,
                -COORD_LIMIT <= s.offset_x <= COORD_LIMIT,
                -COORD_LIMIT <= s.offset_y <= COORD_LIMIT,
                -COORD_LIMIT <= qx <= COORD_LIMIT,
                -COORD_LIMIT <= qy <= COORD_LIMIT,
                n == self.placements@.len(),
                0 <= i <= n,
                match best {
                    None => forall|j: int| 0 <= j < i ==> !#[trigger] self.pick_eligible(j),
                    Some((id, d)) => {
                        &&& 0 <= best_idx < i
                        &&& self.pick_eligible(best_idx)
                        &&& self.placements@[best_idx].id == id
                        &&& d == self.pick_dist_sq(s, best_idx, qx as int, qy as int)
                        &&& forall|j: int|
                            0 <= j < i && self.pick_eligible(j) ==> #[trigger] self.pick_dist_sq(
                                s,
                                j,
                                qx as int,
                                qy as int,
                            ) >= d
                        &&& forall|j: int|
                            0 <= j < best_idx && self.pick_eligible(j)
                                ==> #[trigger] self.pick_dist_sq(s, j, qx as int, qy as int) > d
                    },
                },
            decreases n - i,
        {
            let p = self.placements[i];
            if p.layout_id == ROUTE_LAYOUT_ID {
                match self.hole_by_id(p.hole_id) {
                    None => {
                        proof {
                            assert(!self.pick_eligible(i as int));
                        }
                    },
                    Some(h) => {
                        proof {
                            let hid = p.hole_id;
                            assert(exists|j: int|
                                0 <= j < self.holes@.len() && self.holes@[j] == *h);
                            let j = choose|j: int|
                                0 <= j < self.holes@.len() && self.holes@[j] == *h;
                            assert(self.holes@[j].id == hid);
                            assert(has_hole(self.holes@, hid));
                            let c = choose|k: int|
                                0 <= k < self.holes@.len() && self.holes@[k].id == hid;
                            assert(self.holes@[c].id == hid);
                            if c != j {
                                assert(self.holes@[c].id != self.holes@[j].id);
                            }
                            assert(hole_with_id(self.holes@, hid) == *h);
                        }
                        let hx = h.x as i128;
                        let hy = h.y as i128;
                        proof {
                            assert(hx * (s.scale as i128) <= 2_147_483_648_000_000_000
                                && hx * (s.scale as i128) >= -2_147_483_648_000_000_000)
                                by (nonlinear_arith)
                                requires
                                    -0x8000_0000 <= hx <= 0x8000_0000,
                                    -1_000_000_000 <= s.scale <= 1_000_000_000,
                            ;
                            assert(hy * (s.scale as i128) <= 2_147_483_648_000_000_000
                                && hy * (s.scale as i128) >= -2_147_483_648_000_000_000)
                                by (nonlinear_arith)
                                requires
                                    -0x8000_0000 <= hy <= 0x8000_0000,
                                    -1_000_000_000 <= s.scale <= 1_000_000_000,
                            ;
                        }
                        let px: i128 = hx * (s.scale as i128) + (s.offset_x as i128);
                        let py: i128 = hy * (s.scale as i128) + (s.offset_y as i128);
                        let dx: i128 = px - (qx as i128);
                        let dy: i128 = py - (qy as i128);
                        proof {
                            assert(dx * dx >= 0 && dx * dx
                                <= 4_840_000_000_000_000_000_000_000_000_000_000_000 && dy * dy
                                >= 0 && dy * dy
                                <= 4_840_000_000_000_000_000_000_000_000_000_000_000)
                                by (nonlinear_arith)
                                requires
                                    -2_200_000_000_000_000_000 <= dx <= 2_200_000_000_000_000_000,
                                    -2_200_000_000_000_000_000 <= dy <= 2_200_000_000_000_000_000,
                            ;
                        }
                        let d: i128 = dx * dx + dy * dy;
                        proof {
                            assert(d == self.pick_dist_sq(s, i as int, qx as int, qy as int));
                        }
                        let better = match best {
                            None => true,
                            Some((_, bd)) => d < bd,
                        };
                        if better {
                            best = Some((p.id, d));
                            proof {
                                best_idx = i as int;
                            }
                        }
                    },
                }
            } else {
                proof {
                    assert(!self.pick_eligible(i as int));
                }
            }
            i = i + 1;
        }
        match best {
            None => None,
            Some((id, d)) => {
                if d <= threshold_sq as i128 {
                    Some(id)
                } else {
                    None
                }
            },
        }
    }
}

/// The click gate of the authoring surface: a click counts as a
/// selection only when no pinch gesture is in flight and the drag
/// distance accumulated since the last release stays within
/// `DRAG_CANCEL_SQ` square pixels.
pub fn click_accepted(drag_dist_sq: i64, pinching: bool) -> (r: bool)
    ensures
        r == (drag_dist_sq <= DRAG_CANCEL_SQ && !pinching),
{
    drag_dist_sq <= DRAG_CANCEL_SQ && !pinching
}

} // verus!
