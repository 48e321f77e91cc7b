//! The chart model read by the timeline compiler.
//!
//! A chart is an immutable description of one song's playable content: button
//! and FX note lanes made of intervals, laser lanes made of piecewise-linear
//! curve sections, and a tempo map. All positions are measured in ticks, the
//! chart's own integer unit of musical time (`beat.resolution` ticks per
//! quarter beat).
//!
//! Two chart quantities that are often given as fractional numbers are held
//! here as scaled integers so that every computation over them is exact:
//!
//! * tempo is in thousandths of a beat per minute (a `bpm` field of `120_000`
//!   means 120 BPM), and
//! * a laser control-point value is a normalized lane position scaled by
//!   [`LASER_MAX`] (`0` is the leftmost position, `LASER_MAX` the rightmost).

use vstd::prelude::*;

verus! {

/// Scale of laser control-point values: `LASER_MAX` stands for the
/// normalized lane position 1.0 (rightmost), `0` for 0.0 (leftmost).
pub const LASER_MAX: u32 = 1_000_000;

/// A timed span on the musical timeline: a chip note when `l == 0`, a hold
/// note when `l > 0`.
#[derive(Debug, Clone, Copy, PartialEq, Eq, Structural)]
pub struct Interval {
    /// Start tick.
    pub y: u32,
    /// Length in ticks; `0` means instantaneous.
    pub l: u32,
}

impl Interval {
    /// The whole span fits on the tick axis without wrapping.
    pub open spec fn fits(&self) -> bool {
        self.y + self.l <= u32::MAX
    }
}

/// One control point of a laser section, at offset `ry` from the section
/// start. The curve passes through value `v`; when `vf` is present the curve
/// jumps discontinuously ("slam") from `v` to `vf` at this point.
#[derive(Debug, Clone, Copy, PartialEq, Eq)]
pub struct GraphSectionPoint {
    /// Offset in ticks from the section start.
    pub ry: u32,
    /// Lane position on entry, scaled by [`LASER_MAX`].
    pub v: u32,
    /// Slam target: lane position right after this point, when the curve
    /// jumps here.
    pub vf: Option<u32>,
}

/// The value the curve leaves a control point with: the slam target if the
/// point has one, its entry value otherwise.
pub open spec fn leave_value(p: GraphSectionPoint) -> int {
    match p.vf {
        Some(vf) => vf as int,
        None => p.v as int,
    }
}

/// A laser section: an ordered piecewise-linear curve starting at tick `y`.
#[derive(Debug, Clone, PartialEq, Eq)]
pub struct LaserSection {
    /// Start tick of the section.
    pub y: u32,
    /// Control points, ordered by strictly increasing `ry`; the first point
    /// has `ry == 0`.
    pub v: Vec<GraphSectionPoint>,
}

/// Linear interpolation from `a` towards `b`, `num/den` of the way, with the
/// fractional part rounded towards `a`. Exact on integers; `den` is positive
/// in every use.
pub open spec fn interp(a: int, b: int, num: int, den: int) -> int {
    if b >= a {
        a + ((b - a) * num) / den
    } else {
        a - ((a - b) * num) / den
    }
}

/// Curve value at offset `ry` into the suffix `points` of a section's control
/// points: `None` outside the covered range, otherwise the linear
/// interpolation inside the segment containing `ry` (starting from a point's
/// slam target when it has one).
pub open spec fn value_in_points(points: Seq<GraphSectionPoint>, ry: int) -> Option<int>
    decreases points.len(),
{
    if points.len() == 0 {
        None
    } else if points.len() == 1 {
        if ry == points[0].ry {
            Some(leave_value(points[0]))
        } else {
            None
        }
    } else if ry < points[0].ry {
        None
    } else if ry < points[1].ry {
        Some(
            interp(
                leave_value(points[0]),
                points[1].v as int,
                ry - points[0].ry,
                points[1].ry - points[0].ry,
            ),
        )
    } else {
        value_in_points(points.drop_first(), ry)
    }
}

impl LaserSection {
    /// Well-formed per the chart format: at least one control point, offsets
    /// strictly increasing and starting at zero, values within the laser
    /// scale, and the whole section on the tick axis.
    pub open spec fn wf(&self) -> bool {
        &&& self.v@.len() >= 1
        &&& self.v@[0].ry == 0
        &&& forall|i: int, j: int|
            0 <= i < j < self.v@.len() ==> self.v@[i].ry < self.v@[j].ry
        &&& forall|i: int|
            0 <= i < self.v@.len() ==> (#[trigger] self.v@[i]).v <= LASER_MAX
        &&& forall|i: int|
            0 <= i < self.v@.len() ==> match (#[trigger] self.v@[i]).vf {
                Some(vf) => vf <= LASER_MAX,
                None => true,
            }
        &&& forall|i: int|
            0 <= i < self.v@.len() ==> self.y + (#[trigger] self.v@[i]).ry <= u32::MAX
    }

    /// Curve value at absolute tick `y`, `None` outside the section.
    pub open spec fn value_at_spec(&self, y: int) -> Option<int> {
        if y < self.y {
            None
        } else {
            value_in_points(self.v@, y - self.y)
        }
    }

    /// Evaluates the section's curve at absolute tick `y`.
    pub fn value_at(&self, y: u32) -> (r: Option<u32>)
        requires
            self.wf(),
        ensures
            match r {
                Some(p) => self.value_at_spec(y as int) == Some(p as int) && p <= LASER_MAX,
                None => self.value_at_spec(y as int) is None,
            },
    {
        if y < self.y {
            return None;
        }
        let ry = y - self.y;
        let n = self.v.len();
        let mut i: usize = 0;
        proof {
            assert(self.v@.skip(0) =~= self.v@);
        }
        while i + 1 < n
            invariant
                self.wf(),
                n == self.v@.len(),
                0 <= i < n,
                ry == y - self.y,
                value_in_points(self.v@, ry as int) == value_in_points(
                    self.v@.skip(i as int),
                    ry as int,
                ),
                i > 0 ==> self.v@[i as int - 1].ry <= ry,
            decreases n - i,
        {
            let p0 = self.v[i];
            let p1 = self.v[i + 1];
            proof {
                assert(self.v@.skip(i as int)[0] == p0);
                assert(self.v@.skip(i as int)[1] == p1);
            }
            if ry < p0.ry {
                proof {
                    assert(value_in_points(self.v@.skip(i as int), ry as int) is None);
                }
                return None;
            }
            if ry < p1.ry {
                let a = match p0.vf {
                    Some(vf) => vf,
                    None => p0.v,
                };
                let pos = interp_exec(a, p1.v, ry - p0.ry, p1.ry - p0.ry);
                proof {
                    assert(value_in_points(self.v@.skip(i as int), ry as int) == Some(
                        interp(
                            leave_value(p0),
                            p1.v as int,
                            ry - p0.ry,
                            p1.ry as int - p0.ry as int,
                        ),
                    ));
                }
                return Some(pos);
            }
            proof {
                assert(self.v@.skip(i as int).drop_first() =~= self.v@.skip(i as int + 1));
            }
            i = i + 1;
        }
        // One point left: the section's final control point.
        let p = self.v[i];
        proof {
            assert(self.v@.skip(i as int)[0] == p);
            assert(self.v@.skip(i as int).len() == 1);
        }
        if ry == p.ry {
            let a = match p.vf {
                Some(vf) => vf,
                None => p.v,
            };
            Some(a)
        } else {
            None
        }
    }
}

/// Linear interpolation from `a` towards `b`, `num/den` of the way, exactly
/// as [`interp`] states it.
fn interp_exec(a: u32, b: u32, num: u32, den: u32) -> (r: u32)
    requires
        a <= LASER_MAX,
        b <= LASER_MAX,
        0 < den,
        num < den,
    ensures
        r as int == interp(a as int, b as int, num as int, den as int),
        r <= LASER_MAX,
{
    proof {
        lemma_interp_bounds(a as int, b as int, num as int, den as int);
    }
    if b >= a {
        proof {
            assert(((b - a) as int) * (num as int) <= (u64::MAX as int)) by (nonlinear_arith)
                requires
                    b - a <= LASER_MAX,
                    num <= u32::MAX,
            ;
        }
        let d: u64 = (b - a) as u64 * num as u64 / den as u64;
        a + (d as u32)
    } else {
        proof {
            assert(((a - b) as int) * (num as int) <= (u64::MAX as int)) by (nonlinear_arith)
                requires
                    a - b <= LASER_MAX,
                    num <= u32::MAX,
            ;
        }
        let d: u64 = (a - b) as u64 * num as u64 / den as u64;
        a - (d as u32)
    }
}

/// The interpolated value lies between `a` and `b`, and the scaled offset is
/// at most the distance between them.
proof fn lemma_interp_bounds(a: int, b: int, num: int, den: int)
    requires
        0 <= a,
        0 <= b,
        0 < den,
        0 <= num < den,
    ensures
        b >= a ==> 0 <= ((b - a) * num) / den <= b - a,
        b < a ==> 0 <= ((a - b) * num) / den <= a - b,
        a <= interp(a, b, num, den) <= b || b <= interp(a, b, num, den) <= a,
{
    let d = if b >= a { b - a } else { a - b };
    assert(d * num <= d * den) by (nonlinear_arith)
        requires
            0 <= d,
            0 <= num < den,
    ;
    assert(0 <= d * num) by (nonlinear_arith)
        requires
            0 <= d,
            0 <= num,
    ;
    vstd::arithmetic::div_mod::lemma_div_is_ordered(d * num, d * den, den);
    vstd::arithmetic::div_mod::lemma_div_by_multiple(d, den);
    vstd::arithmetic::div_mod::lemma_div_pos_is_pos(d * num, den);
}

/// A tempo change: from tick `y` on, the tempo is `bpm` thousandths of a
/// beat per minute.
#[derive(Debug, Clone, Copy, PartialEq, Eq, Structural)]
pub struct BpmChange {
    /// Tick the change takes effect at.
    pub y: u32,
    /// Tempo in thousandths of a beat per minute.
    pub bpm: u32,
}

/// Tempo in effect at tick `y`: the `bpm` of the last change at or before
/// `y`, or `0` for an (ill-formed) empty tempo map.
pub open spec fn bpm_at_rec(s: Seq<BpmChange>, y: int) -> int
    decreases s.len(),
{
    if s.len() == 0 {
        0
    } else if s.last().y <= y {
        s.last().bpm as int
    } else {
        bpm_at_rec(s.drop_last(), y)
    }
}

/// The chart's timing description: tick resolution and tempo map.
#[derive(Debug, Clone, PartialEq, Eq)]
pub struct BeatInfo {
    /// Tempo changes, ordered by strictly increasing tick; the first one is
    /// at tick `0`.
    pub bpm: Vec<BpmChange>,
    /// Ticks per quarter beat, a chart-wide constant.
    pub resolution: u32,
}

impl BeatInfo {
    /// Well-formed per the chart format: a tempo from the very first tick on,
    /// changes in strictly ascending order, and a resolution coarse enough
    /// that a quantization step is at least one tick.
    pub open spec fn wf(&self) -> bool {
        &&& self.bpm@.len() >= 1
        &&& self.bpm@[0].y == 0
        &&& forall|i: int, j: int|
            0 <= i < j < self.bpm@.len() ==> self.bpm@[i].y < self.bpm@[j].y
        &&& self.resolution >= 4
    }
}

/// The chart's note content.
#[derive(Debug, PartialEq, Eq)]
pub struct NoteData {
    /// The four button lanes.
    pub bt: [Vec<Interval>; 4],
    /// The two FX lanes.
    pub fx: [Vec<Interval>; 2],
    /// The two laser lanes.
    pub laser: [Vec<LaserSection>; 2],
}

/// Every interval of `lane` fits on the tick axis.
pub open spec fn lane_fits(lane: Seq<Interval>) -> bool {
    forall|i: int| 0 <= i < lane.len() ==> (#[trigger] lane[i]).fits()
}

/// `lane` is ordered by strictly increasing start tick.
pub open spec fn lane_sorted(lane: Seq<Interval>) -> bool {
    forall|i: int, j: int| 0 <= i < j < lane.len() ==> lane[i].y < lane[j].y
}

impl NoteData {
    /// Well-formed per the chart format: every note on the tick axis, note
    /// lanes ordered by start tick, and every laser section well-formed.
    pub open spec fn wf(&self) -> bool {
        &&& forall|k: int|
            0 <= k < 4 ==> lane_fits(#[trigger] self.bt@[k]@) && lane_sorted(self.bt@[k]@)
        &&& forall|k: int|
            0 <= k < 2 ==> lane_fits(#[trigger] self.fx@[k]@) && lane_sorted(self.fx@[k]@)
        &&& forall|k: int, i: int|
            0 <= k < 2 && 0 <= i < self.laser@[k]@.len() ==> (#[trigger] self.laser@[k]@[i]).wf()
    }
}

/// An immutable parsed chart, the compiler's only input.
#[derive(Debug, PartialEq, Eq)]
pub struct Chart {
    /// Note content.
    pub note: NoteData,
    /// Timing description.
    pub beat: BeatInfo,
    /// Audio description, including the effect schedules.
    pub audio: crate::effects::AudioInfo,
}

impl Chart {
    /// Well-formed per the chart format. The compiler requires this of every
    /// chart it is handed; a malformed chart is the chart provider's bug.
    pub open spec fn wf(&self) -> bool {
        &&& self.note.wf()
        &&& self.beat.wf()
    }

    /// Tempo in effect at tick `y`, in thousandths of a beat per minute.
    pub open spec fn bpm_at_spec(&self, y: int) -> int {
        bpm_at_rec(self.beat.bpm@, y)
    }

    /// Tempo in effect at tick `y`: the last change at or before `y`.
    pub fn bpm_at_tick(&self, y: u32) -> (r: u32)
        ensures
            r as int == self.bpm_at_spec(y as int),
    {
        let mut i = self.beat.bpm.len();
        proof {
            assert(self.beat.bpm@.take(i as int) =~= self.beat.bpm@);
        }
        while i > 0
            invariant
                i <= self.beat.bpm@.len(),
                bpm_at_rec(self.beat.bpm@, y as int) == bpm_at_rec(
                    self.beat.bpm@.take(i as int),
                    y as int,
                ),
            decreases i,
        {
            i = i - 1;
            let c = self.beat.bpm[i];
            proof {
                assert(self.beat.bpm@.take(i as int + 1).last() == c);
                assert(self.beat.bpm@.take(i as int + 1).drop_last() =~= self.beat.bpm@.take(
                    i as int,
                ));
            }
            if c.y <= y {
                return c.bpm;
            }
        }
        proof {
            assert(self.beat.bpm@.take(0) =~= Seq::<BpmChange>::empty());
        }
        0
    }
}

} // verus!
