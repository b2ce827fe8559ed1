//! Search poses, per-heading motion templates, and the cost model.
//!
//! A [`Cell`] is one search state: a grid position, a quantized heading,
//! and whether the step that reached it was driven in reverse. The
//! `reverse` flag takes part in pose identity: a forward arrival and a
//! reverse arrival at the same cell and heading are distinct search
//! states. That is a deliberate policy choice, stated here once: it
//! keeps state identity structural, and the cost model may price the
//! two arrivals differently anyway.

use vstd::prelude::*;

use crate::grid::GridVec;
use crate::trig::{
    direction_of, isqrt64, spec_dir_x, spec_dir_y, spec_isqrt,
};

verus! {

use vstd::arithmetic::div_mod::lemma_multiply_divide_le;

/// One search state: position, heading increment, and whether the move
/// that produced it was a reverse move.
#[derive(Clone, Copy, Debug, PartialEq, Eq, Structural)]
pub struct Cell {
    pub rotation: i16,
    pub position: GridVec,
    pub reverse: bool,
}

impl Cell {
    /// A pose at `start` facing `rotation`, not marked as reversing.
    pub fn new(rotation: i16, start: GridVec) -> (r: Cell)
        ensures
            r.rotation == rotation,
            r.position == start,
            !r.reverse,
    {
        Cell { rotation, position: start, reverse: false }
    }

    /// Wraps a heading that has left `[0, max_increments)` by at most one
    /// whole turn back into range. Heading arithmetic is modular; the
    /// single-wrap precondition is what every caller satisfies.
    pub fn clamp_rotation(rotation: i16, max_increments: i16) -> (r: i16)
        requires
            0 < max_increments,
            -max_increments <= rotation < 2 * max_increments,
        ensures
            r == spec_clamp_rotation(rotation as int, max_increments as int),
            0 <= r < max_increments,
    {
        let max_rotation = max_increments;
        if rotation < 0 {
            max_rotation + rotation
        } else if rotation >= max_rotation {
            rotation - max_rotation
        } else {
            rotation
        }
    }

    /// The heading half a turn away from `rotation`.
    pub fn opposite_rotation(rotation: i16, max_increments: i16) -> (r: i16)
        requires
            0 < max_increments <= 16383,
            0 <= rotation < max_increments,
        ensures
            r == spec_opposite_rotation(rotation as int, max_increments as int),
            0 <= r < max_increments,
    {
        let opposite = rotation + max_increments / 2;
        Self::clamp_rotation(opposite, max_increments)
    }

    /// The number of increments of the shortest rotation from this
    /// pose's heading to `to`.
    pub fn rotation_to(&self, to: i16, max_increments: i16) -> (r: i16)
        requires
            0 < max_increments <= 16383,
            0 <= self.rotation < max_increments,
            0 <= to < max_increments,
        ensures
            r == spec_rotation_to(self.rotation as int, to as int, max_increments as int),
            0 <= r <= max_increments,
    {
        let angle1 = self.rotation;
        let angle2 = to;
        let diff_clockwise = (angle2 - angle1 + max_increments) % max_increments;
        let diff_counterclockwise = (angle1 - angle2 + max_increments) % max_increments;
        if diff_clockwise < diff_counterclockwise {
            diff_clockwise
        } else {
            diff_counterclockwise
        }
    }
}

/// The successor pose of `c` under template `t`: the position moves by
/// the template's offset, the heading and reverse flag are the
/// template's.
pub open spec fn spec_step(c: Cell, t: Template) -> Cell {
    Cell {
        position: GridVec {
            x: (c.position.x + t.offset.x) as i32,
            y: (c.position.y + t.offset.y) as i32,
        },
        rotation: t.rotation,
        reverse: t.reverse,
    }
}

impl Cell {
    /// The candidate pose one step along `rotation`: its offset is the
    /// eight-way direction of `rotation`, and for a reverse step the
    /// recorded heading points half a turn away from the travel
    /// direction.
    pub fn precompute_neighbor(rotation: i16, reverse: bool, max_increments: u16) -> (c: Cell)
        requires
            0 < max_increments <= 16383,
            0 <= rotation < max_increments,
        ensures
            c.position == spec_direction(rotation as int, max_increments as int),
            !reverse ==> c.rotation == rotation,
            reverse ==> c.rotation == spec_opposite_rotation(
                rotation as int,
                max_increments as int,
            ),
            c.reverse == reverse,
    {
        let d = direction_of(rotation as u16, max_increments);
        let adjusted = if reverse {
            Self::opposite_rotation(rotation, max_increments as i16)
        } else {
            rotation
        };
        Cell { rotation: adjusted, position: GridVec { x: d.0, y: d.1 }, reverse }
    }

    /// All successor poses of this pose: one per motion template of its
    /// heading, each translated to this position.
    pub fn neighbors(&self, cache: &NeighborCache) -> (result: Vec<Cell>)
        requires
            cache.wf(),
            0 <= self.rotation < cache.spec_max_increments(),
            -1000000000 <= self.position.x <= 1000000000,
            -1000000000 <= self.position.y <= 1000000000,
        ensures
            result@.len() == spec_template_list(
                cache.spec_max_increments(),
                cache.spec_arc(),
                self.rotation as int,
            ).len(),
            forall|i: int|
                0 <= i < result@.len() ==> #[trigger] result@[i] == spec_step(
                    *self,
                    spec_template_list(
                        cache.spec_max_increments(),
                        cache.spec_arc(),
                        self.rotation as int,
                    )[i],
                ),
            forall|i: int|
                0 <= i < result@.len() ==> spec_template_ok(
                    cache.spec_max_increments(),
                    #[trigger] spec_template_list(
                        cache.spec_max_increments(),
                        cache.spec_arc(),
                        self.rotation as int,
                    )[i],
                ),
    {
        let ghost n = cache.spec_max_increments();
        let ghost arc = cache.spec_arc();
        let mut result: Vec<Cell> = Vec::new();
        match cache.get(self.rotation) {
            None => result,
            Some(cached) => {
                let mut i: usize = 0;
                while i < cached.len()
                    invariant
                        i <= cached@.len(),
                        result@.len() == i,
                        cached@ == spec_template_list(n, arc, self.rotation as int),
                        forall|jj: int|
                            0 <= jj < cached@.len() ==> spec_template_ok(n, #[trigger] cached@[jj]),
                        -1000000000 <= self.position.x <= 1000000000,
                        -1000000000 <= self.position.y <= 1000000000,
                        forall|jj: int|
                            0 <= jj < i ==> #[trigger] result@[jj] == spec_step(
                                *self,
                                cached@[jj],
                            ),
                    decreases cached@.len() - i,
                {
                    let t = cached[i];
                    result.push(
                        Cell {
                            position: GridVec {
                                x: self.position.x + t.offset.x,
                                y: self.position.y + t.offset.y,
                            },
                            rotation: t.rotation,
                            reverse: t.reverse,
                        },
                    );
                    i += 1;
                }
                result
            },
        }
    }
}

/// Heading wrapped by at most one whole turn into `[0, n)`.
pub open spec fn spec_clamp_rotation(rotation: int, n: int) -> int {
    if rotation < 0 {
        n + rotation
    } else if rotation >= n {
        rotation - n
    } else {
        rotation
    }
}

/// The heading half a turn away.
pub open spec fn spec_opposite_rotation(rotation: int, n: int) -> int {
    spec_clamp_rotation(rotation + n / 2, n)
}

/// Increments of the shortest rotation between two headings.
pub open spec fn spec_rotation_to(a: int, b: int, n: int) -> int {
    let diff_clockwise = (b - a + n) % n;
    let diff_counterclockwise = (a - b + n) % n;
    if diff_clockwise < diff_counterclockwise {
        diff_clockwise
    } else {
        diff_counterclockwise
    }
}

/// Squared Euclidean distance between two grid positions.
pub open spec fn spec_dist2(a: GridVec, b: GridVec) -> int {
    (a.x - b.x) * (a.x - b.x) + (a.y - b.y) * (a.y - b.y)
}

/// The cost model: a physically motivated turning penalty, a squared
/// distance penalty, and a multiplier for reverse moves.
///
/// The turning penalty comes from a cornering speed limit: at reference
/// speed `v_ref` (scaled by [`crate::trig::FP_ONE`]), a turn by angle
/// `theta` allows at most `sqrt(mu_g / theta)` (with `mu_g` the friction
/// coefficient times the gravitational constant, same scale), and the
/// lost fraction of the reference speed, clamped to `[0, 1]`, scales
/// `k_angle`.
#[derive(Clone, Copy, Debug)]
pub struct CostModel {
    pub k_angle: u32,
    pub k_dist: u32,
    pub k_heur: u32,
    pub reverse_mult: u32,
    pub mu_g_fp: u32,
    pub v_ref_fp: u32,
}

impl CostModel {
    /// All constants within the ranges the integer arithmetic needs.
    pub open spec fn wf(&self) -> bool {
        &&& 1 <= self.reverse_mult <= 1000
        &&& self.k_angle <= 1000000
        &&& self.k_dist <= 1000000
        &&& self.k_heur <= 1000000
        &&& self.mu_g_fp <= 1000000
        &&& 1 <= self.v_ref_fp <= 1000000
    }

    /// The canonical model: distance and full-turn penalties of a
    /// thousand, a small heuristic scale, a four-fold reverse penalty,
    /// and a cornering limit that starts to bite a little below a
    /// quarter-turn step.
    pub fn new() -> (r: CostModel)
        ensures
            r.wf(),
            r.k_angle == 1000,
            r.k_dist == 1000,
            r.k_heur == 10,
            r.reverse_mult == 4,
            r.mu_g_fp == 47350,
            r.v_ref_fp == 65536,
    {
        CostModel {
            k_angle: 1000,
            k_dist: 1000,
            k_heur: 10,
            reverse_mult: 4,
            mu_g_fp: 47350,
            v_ref_fp: 65536,
        }
    }

    /// A model with every constant chosen by the caller.
    pub fn with_constants(
        k_angle: u32,
        k_dist: u32,
        k_heur: u32,
        reverse_mult: u32,
        mu_g_fp: u32,
        v_ref_fp: u32,
    ) -> (r: CostModel)
        requires
            1 <= reverse_mult <= 1000,
            k_angle <= 1000000,
            k_dist <= 1000000,
            k_heur <= 1000000,
            mu_g_fp <= 1000000,
            1 <= v_ref_fp <= 1000000,
        ensures
            r.wf(),
            r == (CostModel { k_angle, k_dist, k_heur, reverse_mult, mu_g_fp, v_ref_fp }),
    {
        CostModel { k_angle, k_dist, k_heur, reverse_mult, mu_g_fp, v_ref_fp }
    }

    /// The speed lost to cornering by a turn of `d` increments out of
    /// `n`, as a fraction scaled by [`crate::trig::FP_ONE`].
    pub open spec fn spec_speed_loss_fp(&self, d: int, n: int) -> int {
        if d == 0 {
            0
        } else {
            let theta = (d * 411775) / n;
            let s2 = (self.mu_g_fp * 65536) / theta;
            let max_safe = spec_isqrt(s2 * 65536);
            let capped = if max_safe > self.v_ref_fp {
                self.v_ref_fp as int
            } else {
                max_safe
            };
            ((self.v_ref_fp - capped) * 65536) / (self.v_ref_fp as int)
        }
    }

    /// The turning part of an edge cost.
    pub open spec fn spec_angle_cost(&self, d: int, n: int) -> int {
        (self.spec_speed_loss_fp(d, n) * self.k_angle) / 65536
    }

    /// The full edge cost of arriving at `to` from `from`.
    pub open spec fn spec_cost(&self, to: Cell, from: Cell, n: int) -> int {
        let d = spec_rotation_to(from.rotation as int, to.rotation as int, n);
        let mult = if to.reverse {
            self.reverse_mult as int
        } else {
            1
        };
        (self.spec_angle_cost(d, n) + spec_dist2(to.position, from.position) * self.k_dist) * mult
    }

    /// The heuristic: squared distance to the goal, scaled by `k_heur`.
    pub open spec fn spec_heuristic(&self, position: GridVec, goal: GridVec) -> int {
        spec_dist2(position, goal) * self.k_heur
    }

    /// The machine limit on an edge cost: with this squared distance,
    /// the worst-case cost formula stays within `u32`.
    pub open spec fn spec_cost_fits(&self, dist2: int) -> bool {
        &&& dist2 <= u32::MAX
        &&& (self.k_angle + dist2 * self.k_dist) * self.reverse_mult <= u32::MAX
    }

    /// The machine limit on a heuristic value.
    pub open spec fn spec_heuristic_fits(&self, dist2: int) -> bool {
        &&& dist2 <= u32::MAX
        &&& dist2 * self.k_heur <= u32::MAX
    }
}

/// When the squared distance fits `u32`, each coordinate difference is
/// at most `65536` in magnitude, so its square fits `i64`.
proof fn lemma_delta_bound(dx: int, dy: int)
    requires
        dx * dx + dy * dy <= 0xffff_ffff,
    ensures
        0 <= dx * dx <= 0xffff_ffff,
        0 <= dy * dy <= 0xffff_ffff,
        -65536 <= dx <= 65536,
        -65536 <= dy <= 65536,
{
    assert(0 <= dx * dx && 0 <= dy * dy && dx * dx <= 0xffff_ffff && dy * dy <= 0xffff_ffff
        && -65536 <= dx <= 65536 && -65536 <= dy <= 65536) by (nonlinear_arith)
        requires
            dx * dx + dy * dy <= 0xffff_ffff,
    ;
}

impl Cell {
    /// The edge cost of arriving at this pose from `from` under `model`:
    /// zero for the start pose, otherwise the turning penalty plus the
    /// squared-distance penalty, all multiplied by the reverse penalty
    /// when this pose was reached by reversing.
    pub fn cost(&self, from: Option<&Cell>, model: &CostModel, max_increments: u16) -> (r: u32)
        requires
            model.wf(),
            0 < max_increments <= 16383,
            0 <= self.rotation < max_increments,
            from is Some ==> 0 <= from.unwrap().rotation < max_increments,
            from is Some ==> model.spec_cost_fits(
                spec_dist2(self.position, from.unwrap().position),
            ),
        ensures
            from is Some ==> r == model.spec_cost(*self, *from.unwrap(), max_increments as int),
            from is None ==> r == 0,
    {
        match from {
            None => 0,
            Some(from) => {
                let n = max_increments as i16;
                let d = self.rotation_to(from.rotation, n);
                let angle_cost = angle_cost_exec(model, d as u32, max_increments as u32);
                let dx: i64 = self.position.x as i64 - from.position.x as i64;
                let dy: i64 = self.position.y as i64 - from.position.y as i64;
                proof {
                    assert(dx as int * dx as int + dy as int * dy as int == spec_dist2(
                        self.position,
                        from.position,
                    ));
                    lemma_delta_bound(dx as int, dy as int);
                }
                let dist2: u64 = (dx * dx + dy * dy) as u64;
                let mult: u64 = if self.reverse {
                    model.reverse_mult as u64
                } else {
                    1
                };
                proof {
                    assert(dist2 as int * model.k_dist as int <= 0xffff_ffff * 1000000int
                        && (angle_cost as int + dist2 as int * model.k_dist as int)
                        * mult as int <= (0xffff_ffff * 1000000int + 1000000) * 1000)
                        by (nonlinear_arith)
                        requires
                            0 <= angle_cost as int <= 1000000,
                            0 <= dist2 as int <= 0xffff_ffff,
                            0 <= model.k_dist as int <= 1000000,
                            1 <= mult as int <= 1000,
                    ;
                }
                let total: u64 = (angle_cost as u64 + dist2 * model.k_dist as u64) * mult;
                proof {
                    assert(total as int <= 0xffff_ffff) by (nonlinear_arith)
                        requires
                            0 <= angle_cost as int <= model.k_angle as int,
                            0 <= dist2 as int,
                            0 <= model.k_dist as int,
                            1 <= mult as int <= model.reverse_mult as int,
                            total as int == (angle_cost as int + dist2 as int
                                * model.k_dist as int) * mult as int,
                            (model.k_angle as int + dist2 as int * model.k_dist as int)
                                * model.reverse_mult as int <= 0xffff_ffff,
                    ;
                }
                total as u32
            },
        }
    }

    /// The heuristic for this pose against `to`.
    pub fn heuristic(&self, to: GridVec, model: &CostModel) -> (r: u32)
        requires
            model.wf(),
            model.spec_heuristic_fits(spec_dist2(self.position, to)),
        ensures
            r == model.spec_heuristic(self.position, to),
    {
        let dx: i64 = self.position.x as i64 - to.x as i64;
        let dy: i64 = self.position.y as i64 - to.y as i64;
        proof {
            assert(dx as int * dx as int + dy as int * dy as int == spec_dist2(
                self.position,
                to,
            ));
            lemma_delta_bound(dx as int, dy as int);
        }
        let dist2: u64 = (dx * dx + dy * dy) as u64;
        let r64: u64 = dist2 * model.k_heur as u64;
        r64 as u32
    }
}

/// One motion-template entry: the cell offset of the step, the heading
/// after the step, and whether the step is driven in reverse.
#[derive(Clone, Copy, Debug, PartialEq, Eq, Structural)]
pub struct Template {
    pub offset: GridVec,
    pub rotation: i16,
    pub reverse: bool,
}

/// The eight-way direction of a heading, as a cell offset.
pub open spec fn spec_direction(rot: int, n: int) -> GridVec {
    GridVec { x: spec_dir_x(rot, n) as i32, y: spec_dir_y(rot, n) as i32 }
}

/// The circular distance between heading `r` of `n` and the compass
/// direction `k` of 8, measured in eighths-of-a-turn times `n`.
pub open spec fn spec_circ_dist(n: int, r: int, k: int) -> int {
    let m = 8 * n;
    let d = (8 * r - k * n) % m;
    if d <= m - d {
        d
    } else {
        m - d
    }
}

/// The first heading among `0..c` at minimal circular distance from
/// compass direction `k`.
pub open spec fn spec_cardinal_upto(n: int, k: int, c: int) -> int
    decreases c,
{
    if c <= 1 {
        0
    } else {
        let prev = spec_cardinal_upto(n, k, c - 1);
        if spec_circ_dist(n, c - 1, k) < spec_circ_dist(n, prev, k) {
            c - 1
        } else {
            prev
        }
    }
}

/// The heading that points most nearly along compass direction `k`:
/// the first heading at minimal circular distance from it.
pub open spec fn spec_cardinal(n: int, k: int) -> int {
    spec_cardinal_upto(n, k, n)
}

/// Whether `rot` is the cardinal heading of one of the 8 compass
/// directions.
pub open spec fn spec_is_cardinal(n: int, rot: int) -> bool {
    exists|k: int| 0 <= k < 8 && spec_cardinal(n, k) == rot
}

/// The candidate step `j` out of a heading `r`: first the forward
/// candidates for turning offsets `-arc ..= arc`, then the reverse
/// candidates for offsets `-2*arc ..= 2*arc`, whose offset points half a
/// turn away from the recorded heading.
pub open spec fn spec_candidate(n: int, arc: int, r: int, j: int) -> Template {
    if j < 2 * arc + 1 {
        let rot = spec_clamp_rotation(r + j - arc, n);
        Template { offset: spec_direction(rot, n), rotation: rot as i16, reverse: false }
    } else {
        let i = j - (2 * arc + 1) - 2 * arc;
        let rot = spec_clamp_rotation(spec_opposite_rotation(r, n) + i, n);
        Template {
            offset: spec_direction(rot, n),
            rotation: spec_opposite_rotation(rot, n) as i16,
            reverse: true,
        }
    }
}

/// All candidate steps out of heading `r`, forward then reverse.
pub open spec fn spec_candidates(n: int, arc: int, r: int) -> Seq<Template> {
    Seq::new((6 * arc + 2) as nat, |j: int| spec_candidate(n, arc, r, j))
}

/// A candidate is kept when it turned, or goes straight along a
/// cardinal heading, or is a reverse move.
pub open spec fn spec_template_keep(n: int, r: int, t: Template) -> bool {
    t.rotation != r || spec_is_cardinal(n, t.rotation as int) || t.reverse
}

/// The first `j` candidates of heading `r`, filtered.
pub open spec fn spec_template_list_upto(n: int, arc: int, r: int, j: int) -> Seq<Template> {
    spec_candidates(n, arc, r).take(j).filter(|t: Template| spec_template_keep(n, r, t))
}

/// The motion templates of heading `r`: the candidates that pass the
/// filter, in order.
pub open spec fn spec_template_list(n: int, arc: int, r: int) -> Seq<Template> {
    spec_template_list_upto(n, arc, r, 6 * arc + 2)
}

/// Filtering a one-longer prefix keeps the old result and appends the
/// new candidate exactly when it passes.
proof fn lemma_template_take_step(n: int, arc: int, r: int, j: int)
    requires
        0 <= j < 6 * arc + 2,
    ensures
        spec_template_keep(n, r, spec_candidates(n, arc, r)[j]) ==> spec_template_list_upto(
            n,
            arc,
            r,
            j + 1,
        ) == spec_template_list_upto(n, arc, r, j).push(spec_candidates(n, arc, r)[j]),
        !spec_template_keep(n, r, spec_candidates(n, arc, r)[j]) ==> spec_template_list_upto(
            n,
            arc,
            r,
            j + 1,
        ) == spec_template_list_upto(n, arc, r, j),
{
    reveal(Seq::filter);
    let s = spec_candidates(n, arc, r);
    assert(s.take(j + 1).drop_last() =~= s.take(j));
    assert(s.take(j + 1).last() == s[j]);
}

/// Geometric validity of one template entry: a unit-neighbourhood,
/// non-zero offset and an in-range heading.
pub open spec fn spec_template_ok(n: int, t: Template) -> bool {
    &&& -1 <= t.offset.x <= 1
    &&& -1 <= t.offset.y <= 1
    &&& !(t.offset.x == 0 && t.offset.y == 0)
    &&& 0 <= t.rotation < n
}

/// Every candidate is geometrically valid; in particular no candidate
/// carries the zero offset, because no heading rounds to it.
proof fn lemma_candidate_ok(n: int, arc: int, r: int, j: int)
    requires
        NeighborCache::spec_params_ok(n, arc),
        0 <= r < n,
        0 <= j < 6 * arc + 2,
    ensures
        spec_template_ok(n, spec_candidates(n, arc, r)[j]),
        j >= 2 * arc + 1 ==> spec_candidates(n, arc, r)[j].reverse,
{
    let t = spec_candidates(n, arc, r)[j];
    if j < 2 * arc + 1 {
        let rot = spec_clamp_rotation(r + j - arc, n);
        crate::trig::lemma_dir_nonzero(rot, n);
    } else {
        let i = j - (2 * arc + 1) - 2 * arc;
        let rot = spec_clamp_rotation(spec_opposite_rotation(r, n) + i, n);
        crate::trig::lemma_dir_nonzero(rot, n);
    }
}

/// The templates of any heading keep at least the straight reverse
/// candidate: the list is never empty.
proof fn lemma_template_list_nonempty(n: int, arc: int, r: int)
    requires
        NeighborCache::spec_params_ok(n, arc),
        0 <= r < n,
    ensures
        spec_template_list(n, arc, r).len() >= 1,
{
    let j = 6 * arc + 1;
    lemma_candidate_ok(n, arc, r, j);
    lemma_template_take_step(n, arc, r, j);
}

/// Every element of a filtered candidate prefix is one of the
/// candidates.
proof fn lemma_template_list_elements(n: int, arc: int, r: int, j: int, i: int)
    requires
        0 <= j <= 6 * arc + 2,
        0 <= i < spec_template_list_upto(n, arc, r, j).len(),
    ensures
        exists|jj: int|
            0 <= jj < j && spec_template_list_upto(n, arc, r, j)[i] == spec_candidates(
                n,
                arc,
                r,
            )[jj],
    decreases j,
{
    reveal(Seq::filter);
    if j == 0 {
        assert(spec_candidates(n, arc, r).take(0) =~= Seq::<Template>::empty());
        assert(spec_template_list_upto(n, arc, r, 0).len() == 0);
    } else {
        lemma_template_take_step(n, arc, r, j - 1);
        let prev = spec_template_list_upto(n, arc, r, j - 1);
        if spec_template_keep(n, r, spec_candidates(n, arc, r)[j - 1]) {
            if i < prev.len() {
                lemma_template_list_elements(n, arc, r, j - 1, i);
            } else {
                assert(spec_template_list_upto(n, arc, r, j)[i] == spec_candidates(
                    n,
                    arc,
                    r,
                )[j - 1]);
            }
        } else {
            lemma_template_list_elements(n, arc, r, j - 1, i);
        }
    }
}

/// For every heading of a valid discretization, the motion-template
/// list is non-empty and every entry is a unit step with a non-zero
/// offset and an in-range heading: the geometry can never produce a
/// template that stands still.
pub proof fn lemma_templates_nonempty_nonzero(n: int, arc: int, r: int)
    requires
        NeighborCache::spec_params_ok(n, arc),
        0 <= r < n,
    ensures
        spec_template_list(n, arc, r).len() >= 1,
        forall|i: int|
            0 <= i < spec_template_list(n, arc, r).len() ==> spec_template_ok(
                n,
                #[trigger] spec_template_list(n, arc, r)[i],
            ),
{
    lemma_template_list_nonempty(n, arc, r);
    assert forall|i: int| 0 <= i < spec_template_list(n, arc, r).len() implies spec_template_ok(
        n,
        #[trigger] spec_template_list(n, arc, r)[i],
    ) by {
        lemma_template_list_elements(n, arc, r, 6 * arc + 2, i);
        let jj = choose|jj: int|
            0 <= jj < 6 * arc + 2 && spec_template_list(n, arc, r)[i] == spec_candidates(
                n,
                arc,
                r,
            )[jj];
        lemma_candidate_ok(n, arc, r, jj);
    }
}

/// The executable circular distance between heading `r` and compass
/// direction `k`.
fn circ_dist_exec(n: u32, r: u32, k: u32) -> (d: u32)
    requires
        0 < n <= 16383,
        r < n,
        k < 8,
    ensures
        d == spec_circ_dist(n as int, r as int, k as int),
{
    proof {
        assert((k as int) * (n as int) <= 7 * 16383 && (k as int) * (n as int) < 8 * (
        n as int)) by (nonlinear_arith)
            requires
                0 <= k as int,
                k < 8,
                0 < n,
                n as int <= 16383,
        ;
    }
    let m: u32 = 8 * n;
    let a: u32 = 8 * r;
    let b: u32 = k * n;
    let d0: u32 = if a >= b {
        a - b
    } else {
        m - (b - a)
    };
    proof {
        if a >= b {
            vstd::arithmetic::div_mod::lemma_small_mod((a - b) as nat, m as nat);
        } else {
            vstd::arithmetic::div_mod::lemma_fundamental_div_mod_converse(
                8 * (r as int) - (k as int) * (n as int),
                m as int,
                -1,
                d0 as int,
            );
        }
    }
    if d0 <= m - d0 {
        d0
    } else {
        m - d0
    }
}

/// Whether `rot` stands in the cardinal table.
fn is_cardinal_exec(cardinal: &Vec<i16>, rot: i16, n: Ghost<int>) -> (b: bool)
    requires
        cardinal@.len() == 8,
        forall|k: int| 0 <= k < 8 ==> cardinal@[k] == spec_cardinal(n@, k),
    ensures
        b == spec_is_cardinal(n@, rot as int),
{
    let mut k: usize = 0;
    let mut found = false;
    while k < 8
        invariant
            k <= 8,
            cardinal@.len() == 8,
            forall|kk: int| 0 <= kk < 8 ==> cardinal@[kk] == spec_cardinal(n@, kk),
            found == exists|kk: int| 0 <= kk < k && spec_cardinal(n@, kk) == rot as int,
        decreases 8 - k,
    {
        let ck = cardinal[k];
        if ck == rot {
            found = true;
            proof {
                assert(0 <= k < k + 1 && spec_cardinal(n@, k as int) == rot as int);
            }
        } else {
            proof {
                assert forall|kk: int| 0 <= kk < k + 1 implies !(spec_cardinal(n@, kk)
                    == rot as int) || (found == exists|kk2: int|
                    0 <= kk2 < k && spec_cardinal(n@, kk2) == rot as int && true) by {
                    if kk == k {
                        assert(spec_cardinal(n@, kk) == ck);
                    }
                }
            }
        }
        k += 1;
    }
    found
}

/// The motion-template cache: for every heading, the list of candidate
/// steps the search may take, built once from the heading geometry.
#[derive(Clone, Debug)]
pub struct NeighborCache {
    cache: Vec<Vec<Template>>,
    cardinal: Vec<i16>,
    max_increments: u16,
    arc: u16,
}

impl NeighborCache {
    pub closed spec fn spec_max_increments(&self) -> int {
        self.max_increments as int
    }

    pub closed spec fn spec_arc(&self) -> int {
        self.arc as int
    }

    /// Parameter validity: a positive arc, and enough headings that the
    /// widest reverse turn stays within one wrap.
    pub open spec fn spec_params_ok(n: int, arc: int) -> bool {
        &&& 1 <= arc
        &&& 2 * arc < n
        &&& n <= 16383
    }

    /// The cache holds exactly the specified templates of every
    /// heading, each non-empty and made of valid entries.
    pub closed spec fn wf(&self) -> bool {
        let n = self.max_increments as int;
        let arc = self.arc as int;
        &&& Self::spec_params_ok(n, arc)
        &&& self.cardinal@.len() == 8
        &&& (forall|k: int| 0 <= k < 8 ==> self.cardinal@[k] == spec_cardinal(n, k))
        &&& self.cache@.len() == n
        &&& (forall|r: int|
            0 <= r < n ==> (#[trigger] self.cache@[r])@ == spec_template_list(n, arc, r))
        &&& (forall|r: int| 0 <= r < n ==> (#[trigger] self.cache@[r])@.len() >= 1)
        &&& (forall|r: int, i: int|
            0 <= r < n && 0 <= i < self.cache@[r]@.len() ==> spec_template_ok(
                n,
                #[trigger] self.cache@[r]@[i],
            ))
    }

    /// Whether nothing has been precomputed yet.
    pub closed spec fn spec_unbuilt(&self) -> bool {
        self.cache@.len() == 0 && self.cardinal@.len() == 0
    }

    /// The heading-discretization count the cache was built for.
    pub fn max_increments(&self) -> (r: u16)
        requires
            self.wf(),
        ensures
            r == self.spec_max_increments(),
            Self::spec_params_ok(self.spec_max_increments(), self.spec_arc()),
    {
        self.max_increments
    }

    /// The forward turning range the cache was built for.
    pub fn arc(&self) -> (r: u16)
        requires
            self.wf(),
        ensures
            r == self.spec_arc(),
            Self::spec_params_ok(self.spec_max_increments(), self.spec_arc()),
    {
        self.arc
    }

    /// An empty cache for the given discretization; [`Self::precompute`]
    /// fills it.
    pub fn new(max_increments: u16, arc: u16) -> (r: NeighborCache)
        ensures
            r.spec_unbuilt(),
            r.spec_max_increments() == max_increments,
            r.spec_arc() == arc,
    {
        NeighborCache { cache: Vec::new(), cardinal: Vec::new(), max_increments, arc }
    }

    /// A fully built cache for the given discretization.
    pub fn new_precomputed(max_increments: u16, arc: u16) -> (r: NeighborCache)
        requires
            Self::spec_params_ok(max_increments as int, arc as int),
        ensures
            r.wf(),
            r.spec_max_increments() == max_increments,
            r.spec_arc() == arc,
    {
        let mut cache = Self::new(max_increments, arc);
        cache.precompute(max_increments, arc);
        cache
    }

    /// The templates of a heading: `Some` exactly for headings in
    /// range, and then the non-empty specified list of valid entries.
    pub fn get(&self, rotation: i16) -> (r: Option<&Vec<Template>>)
        requires
            self.wf(),
        ensures
            match r {
                Some(v) => {
                    &&& 0 <= rotation < self.spec_max_increments()
                    &&& v@ == spec_template_list(
                        self.spec_max_increments(),
                        self.spec_arc(),
                        rotation as int,
                    )
                    &&& v@.len() >= 1
                    &&& forall|i: int|
                        0 <= i < v@.len() ==> spec_template_ok(
                            self.spec_max_increments(),
                            #[trigger] v@[i],
                        )
                },
                None => !(0 <= rotation < self.spec_max_increments()),
            },
    {
        if 0 <= rotation && (rotation as u16) < self.max_increments {
            Some(&self.cache[rotation as usize])
        } else {
            None
        }
    }

    /// Builds the cardinal table and the per-heading template lists.
    ///
    /// For each of the 8 compass directions, the heading pointing most
    /// nearly along it is recorded as that direction's cardinal heading.
    /// Then for every heading, forward candidates over `-arc ..= arc`
    /// and reverse candidates over `-2*arc ..= 2*arc` are generated and
    /// filtered: a candidate stays when it turned, goes straight along
    /// a cardinal heading, or reverses. No candidate can carry a zero
    /// offset (the rounded direction of a heading is never zero), so
    /// the configuration mismatch that a zero offset would signal is
    /// ruled out by proof rather than detected at run time.
    #[verifier::loop_isolation(false)]
    pub fn precompute(&mut self, max_increments: u16, arc: u16)
        requires
            old(self).spec_unbuilt(),
            old(self).spec_max_increments() == max_increments,
            old(self).spec_arc() == arc,
            Self::spec_params_ok(max_increments as int, arc as int),
        ensures
            final(self).wf(),
            final(self).spec_max_increments() == max_increments,
            final(self).spec_arc() == arc,
    {
        let n = max_increments;
        let ghost n_i = n as int;
        let ghost arc_i_g = arc as int;
        // Cardinal headings of the 8 compass directions.
        let mut k: u32 = 0;
        while k < 8
            invariant
                k <= 8,
                self.cardinal@.len() == k,
                forall|kk: int| 0 <= kk < k ==> self.cardinal@[kk] == spec_cardinal(n_i, kk),
                self.cache@.len() == 0,
                self.max_increments == max_increments,
                self.arc == arc,
            decreases 8 - k,
        {
            let mut best: u16 = 0;
            let mut best_d: u32 = circ_dist_exec(n as u32, 0, k);
            let mut r: u16 = 1;
            while r < n
                invariant
                    1 <= r <= n,
                    best < r,
                    best as int == spec_cardinal_upto(n_i, k as int, r as int),
                    best_d == spec_circ_dist(n_i, best as int, k as int),
                decreases n - r,
            {
                let d = circ_dist_exec(n as u32, r as u32, k);
                if d < best_d {
                    best = r;
                    best_d = d;
                }
                r += 1;
            }
            self.cardinal.push(best as i16);
            k += 1;
        }
        // Template lists of every heading.
        let arc_i: i16 = arc as i16;
        let n_i16: i16 = n as i16;
        let fwd_count: u16 = 2 * arc + 1;
        let rev_count: u16 = 4 * arc + 1;
        let total: u16 = fwd_count + rev_count;
        let mut r: u16 = 0;
        while r < n
            invariant
                r <= n,
                self.cache@.len() == r,
                forall|rr: int|
                    0 <= rr < r ==> (#[trigger] self.cache@[rr])@ == spec_template_list(
                        n_i,
                        arc_i_g,
                        rr,
                    ),
                forall|rr: int| 0 <= rr < r ==> (#[trigger] self.cache@[rr])@.len() >= 1,
                forall|rr: int, i: int|
                    0 <= rr < r && 0 <= i < self.cache@[rr]@.len() ==> spec_template_ok(
                        n_i,
                        #[trigger] self.cache@[rr]@[i],
                    ),
                self.cardinal@.len() == 8,
                forall|kk: int| 0 <= kk < 8 ==> self.cardinal@[kk] == spec_cardinal(n_i, kk),
                self.max_increments == max_increments,
                self.arc == arc,
            decreases n - r,
        {
            let r_i: i16 = r as i16;
            let mut candidates: Vec<Template> = Vec::new();
            let mut j: u16 = 0;
            while j < fwd_count
                invariant
                    j <= fwd_count,
                    candidates@.len() == j,
                    r < n,
                    forall|jj: int|
                        0 <= jj < j ==> candidates@[jj] == spec_candidate(
                            n_i,
                            arc_i_g,
                            r as int,
                            jj,
                        ),
                decreases fwd_count - j,
            {
                let i: i16 = j as i16 - arc_i;
                let rot = Cell::clamp_rotation(r_i + i, n_i16);
                let d = direction_of(rot as u16, n);
                candidates.push(
                    Template { offset: GridVec { x: d.0, y: d.1 }, rotation: rot, reverse: false },
                );
                j += 1;
            }
            let opp = Cell::opposite_rotation(r_i, n_i16);
            let mut j2: u16 = 0;
            while j2 < rev_count
                invariant
                    j2 <= rev_count,
                    candidates@.len() == fwd_count + j2,
                    r < n,
                    0 <= opp < n,
                    opp == spec_opposite_rotation(r as int, n_i),
                    forall|jj: int|
                        0 <= jj < fwd_count + j2 ==> candidates@[jj] == spec_candidate(
                            n_i,
                            arc_i_g,
                            r as int,
                            jj,
                        ),
                decreases rev_count - j2,
            {
                let i: i16 = j2 as i16 - 2 * arc_i;
                let rot = Cell::clamp_rotation(opp + i, n_i16);
                let rec = Cell::opposite_rotation(rot, n_i16);
                let d = direction_of(rot as u16, n);
                candidates.push(
                    Template { offset: GridVec { x: d.0, y: d.1 }, rotation: rec, reverse: true },
                );
                j2 += 1;
            }
            proof {
                assert(candidates@ =~= spec_candidates(n_i, arc_i_g, r as int));
            }
            let mut kept: Vec<Template> = Vec::new();
            let mut t_i: u16 = 0;
            while t_i < total
                invariant
                    t_i <= total,
                    r < n,
                    candidates@ == spec_candidates(n_i, arc_i_g, r as int),
                    kept@ == spec_template_list_upto(n_i, arc_i_g, r as int, t_i as int),
                    forall|i: int|
                        0 <= i < kept@.len() ==> spec_template_ok(n_i, #[trigger] kept@[i]),
                decreases total - t_i,
            {
                let t = candidates[t_i as usize];
                let keep = t.rotation != r_i || is_cardinal_exec(
                    &self.cardinal,
                    t.rotation,
                    Ghost(n_i),
                ) || t.reverse;
                proof {
                    lemma_candidate_ok(n_i, arc_i_g, r as int, t_i as int);
                    lemma_template_take_step(n_i, arc_i_g, r as int, t_i as int);
                    assert(keep == spec_template_keep(n_i, r as int, t));
                }
                if keep {
                    kept.push(t);
                }
                t_i += 1;
            }
            proof {
                assert(kept@ == spec_template_list(n_i, arc_i_g, r as int));
                lemma_template_list_nonempty(n_i, arc_i_g, r as int);
            }
            self.cache.push(kept);
            r += 1;
        }
    }
}

/// Both cost-fitting bounds are monotone: what fits at a larger
/// squared distance fits at a smaller one.
pub proof fn lemma_fits_monotone(model: CostModel, d1: int, d2: int)
    requires
        model.wf(),
        0 <= d1 <= d2,
    ensures
        model.spec_cost_fits(d2) ==> model.spec_cost_fits(d1),
        model.spec_heuristic_fits(d2) ==> model.spec_heuristic_fits(d1),
{
    assert((model.k_angle as int + d1 * model.k_dist as int) * model.reverse_mult as int <= (
    model.k_angle as int + d2 * model.k_dist as int) * model.reverse_mult as int && d1
        * model.k_heur as int <= d2 * model.k_heur as int) by (nonlinear_arith)
        requires
            0 <= d1 <= d2,
            0 <= model.k_dist as int,
            0 <= model.k_heur as int,
            1 <= model.reverse_mult as int,
    ;
}

/// Executable turning penalty, exactly the specification's arithmetic.
fn angle_cost_exec(model: &CostModel, d: u32, n: u32) -> (r: u32)
    requires
        model.wf(),
        0 < n <= 16383,
        d <= n,
    ensures
        r == model.spec_angle_cost(d as int, n as int),
        r <= model.k_angle,
{
    if d == 0 {
        proof {
            assert(model.spec_speed_loss_fp(0, n as int) == 0);
        }
        return 0;
    }
    let theta: u64 = (d as u64 * 411775) / (n as u64);
    proof {
        assert(d as int * 411775 >= n as int) by (nonlinear_arith)
            requires
                1 <= d as int,
                1 <= n as int <= 16383,
        ;
        assert(theta as int >= 1) by {
            assert(d as int * 411775 >= n as int);
            assert((d as int * 411775) / (n as int) >= (n as int) / (n as int)) by {
                vstd::arithmetic::div_mod::lemma_div_is_ordered(
                    n as int,
                    d as int * 411775,
                    n as int,
                );
            }
        }
    }
    let s2: u64 = (model.mu_g_fp as u64 * 65536) / theta;
    proof {
        vstd::arithmetic::div_mod::lemma_div_nonincreasing(
            model.mu_g_fp as int * 65536,
            theta as int,
        );
        assert(s2 as int * 65536 <= 1000000int * 65536 * 65536) by (nonlinear_arith)
            requires
                0 <= s2 as int <= 1000000int * 65536,
        ;
    }
    let max_safe: u64 = isqrt64(s2 * 65536);
    let v_ref = model.v_ref_fp as u64;
    let capped: u64 = if max_safe > v_ref {
        v_ref
    } else {
        max_safe
    };
    let loss: u64 = ((v_ref - capped) * 65536) / v_ref;
    proof {
        assert((v_ref - capped) * 65536 <= v_ref * 65536) by (nonlinear_arith)
            requires
                0 <= capped as int <= v_ref as int,
        ;
        lemma_multiply_divide_le((v_ref - capped) as int * 65536, v_ref as int, 65536int);
        assert(loss as int * model.k_angle as int <= 65536 * model.k_angle as int)
            by (nonlinear_arith)
            requires
                0 <= loss as int <= 65536,
                0 <= model.k_angle as int,
        ;
        lemma_multiply_divide_le(
            loss as int * model.k_angle as int,
            65536int,
            model.k_angle as int,
        );
    }
    let r64: u64 = (loss * model.k_angle as u64) / 65536;
    r64 as u32
}

} // verus!
