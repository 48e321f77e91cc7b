//! Score tick generation: the quantized list of judgeable events.
//!
//! Every note of a chart is expanded into the ticks a player is judged on:
//! one chip tick per instantaneous note, periodic hold ticks over a hold
//! note, periodic laser ticks over a laser segment, and one slam tick per
//! discontinuous laser jump. Tick spacing is tempo-dependent: a quarter of
//! the chart resolution normally, half of it above the high-tempo limit.
//!
//! Generation mirrors the chart format's edge policies exactly: a hold's
//! first tick is its start rounded up to the next quantization boundary, the
//! final sub-step tail of a hold is never judged, a laser segment re-uses the
//! hold quantization, and a tick that would land on the previously emitted
//! tick's position is suppressed at segment joins.

use vstd::prelude::*;

use crate::chart::{lane_fits, Chart, GraphSectionPoint, Interval, LaserSection};

verus! {

/// Tempo limit (in thousandths of a beat per minute) above which score ticks
/// are spaced twice as far apart. A fixed policy of the chart format.
pub const HIGH_BPM_MILLI: u32 = 255_000;

/// One judgeable event, without its timing.
#[derive(Debug, Clone, Copy, PartialEq, Eq, Structural)]
pub enum ScoreTick {
    /// A periodic tick on a moving laser; `pos` is the lane position at this
    /// tick, scaled by [`crate::chart::LASER_MAX`].
    Laser { lane: usize, pos: u32 },
    /// An instantaneous laser jump from `start` to `end` (same scale).
    Slam { lane: usize, start: u32, end: u32 },
    /// A chip note.
    Chip { lane: usize },
    /// A periodic tick on a held note.
    Hold { lane: usize },
}

/// A judgeable event placed at tick `y` of the musical timeline.
#[derive(Debug, Clone, Copy, PartialEq, Eq, Structural)]
pub struct PlacedScoreTick {
    /// Position on the musical timeline.
    pub y: u32,
    /// The event itself.
    pub tick: ScoreTick,
}

/// Quantization step in effect at tick `y`: half the chart resolution above
/// the high-tempo limit, a quarter of it otherwise.
pub open spec fn step_at(c: Chart, y: int) -> int {
    if c.bpm_at_spec(y) > HIGH_BPM_MILLI as int {
        c.beat.resolution as int / 2
    } else {
        c.beat.resolution as int / 4
    }
}

/// With a well-formed tempo map the quantization step is at least one tick.
pub proof fn lemma_step_at_pos(c: Chart, y: int)
    requires
        c.beat.wf(),
    ensures
        1 <= step_at(c, y) <= u32::MAX / 2,
{
}

/// Quantization step in effect at tick `y`.
pub fn get_hold_step_at(y: u32, chart: &Chart) -> (r: u32)
    ensures
        r as int == step_at(*chart, y as int),
{
    if chart.bpm_at_tick(y) > HIGH_BPM_MILLI {
        chart.beat.resolution / 2
    } else {
        chart.beat.resolution / 4
    }
}

/// The first quantization boundary strictly after `y`: `y + step` rounded
/// down to a multiple of `step`.
pub open spec fn first_quant(y: int, step: int) -> int {
    let t = y + step;
    t - (t % step)
}

/// Positions of the hold ticks emitted from position `y` on, as placed
/// `Hold` ticks for `lane`. `step` is the step that was computed at the
/// previously visited position: a candidate position is emitted while it
/// leaves at least that much room before `end`, and the step is re-read at
/// each emitted position (tempo may change mid-hold).
pub open spec fn hold_walk_ticks(c: Chart, lane: usize, end: int, y: int, step: int) -> Seq<
    PlacedScoreTick,
>
    decreases end - y,
{
    if 0 < step && y + step <= end {
        let head = seq![PlacedScoreTick { y: y as u32, tick: ScoreTick::Hold { lane } }];
        let s2 = step_at(c, y);
        if 0 < s2 && y + s2 <= end {
            head + hold_walk_ticks(c, lane, end, y + s2, s2)
        } else {
            head
        }
    } else {
        Seq::empty()
    }
}

/// The score ticks of one note interval: a single chip tick at its start
/// when instantaneous, otherwise the quantized hold ticks strictly inside
/// the interval.
pub open spec fn interval_ticks(c: Chart, iv: Interval, lane: usize) -> Seq<PlacedScoreTick> {
    if iv.l == 0 {
        seq![PlacedScoreTick { y: iv.y, tick: ScoreTick::Chip { lane } }]
    } else {
        let step0 = step_at(c, iv.y as int);
        hold_walk_ticks(c, lane, iv.y + iv.l, first_quant(iv.y as int, step0), step0)
    }
}

/// Expands one note interval of `lane` into its score ticks: exactly one
/// `Chip` tick at `interval.y` when `interval.l == 0`, otherwise the
/// quantized `Hold` ticks.
pub fn ticks_from_interval(interval: &Interval, lane: usize, chart: &Chart) -> (res: Vec<
    PlacedScoreTick,
>)
    requires
        chart.beat.wf(),
        interval.fits(),
    ensures
        res@ == interval_ticks(*chart, *interval, lane),
        interval.l == 0 ==> res@ =~= seq![
            PlacedScoreTick { y: interval.y, tick: ScoreTick::Chip { lane } },
        ],
{
    let mut res: Vec<PlacedScoreTick> = Vec::new();
    if interval.l == 0 {
        res.push(PlacedScoreTick { y: interval.y, tick: ScoreTick::Chip { lane } });
        proof {
            assert(res@ =~= interval_ticks(*chart, *interval, lane));
        }
        return res;
    }
    let end: u64 = interval.y as u64 + interval.l as u64;
    let step0: u32 = get_hold_step_at(interval.y, chart);
    proof {
        lemma_step_at_pos(*chart, interval.y as int);
    }
    let t: u64 = interval.y as u64 + step0 as u64;
    let mut y: u64 = t - t % step0 as u64;
    let mut step: u64 = step0 as u64;
    proof {
        assert(y as int == first_quant(interval.y as int, step0 as int));
    }
    while y + step <= end
        invariant
            chart.beat.wf(),
            end == interval.y + interval.l,
            end <= u32::MAX,
            1 <= step <= u32::MAX,
            y <= end + step,
            interval_ticks(*chart, *interval, lane) == res@ + hold_walk_ticks(
                *chart,
                lane,
                end as int,
                y as int,
                step as int,
            ),
        decreases end + step - y,
    {
        let yu: u32 = y as u32;
        res.push(PlacedScoreTick { y: yu, tick: ScoreTick::Hold { lane } });
        let s2: u32 = get_hold_step_at(yu, chart);
        proof {
            lemma_step_at_pos(*chart, y as int);
            let walk = hold_walk_ticks(*chart, lane, end as int, y as int, step as int);
            let head = seq![PlacedScoreTick { y: yu, tick: ScoreTick::Hold { lane } }];
            let tail = hold_walk_ticks(*chart, lane, end as int, y as int + s2 as int, s2 as int);
            if !(y as int + s2 as int <= end as int) {
                assert(tail =~= Seq::<PlacedScoreTick>::empty());
                assert(walk =~= head + tail);
            }
            assert(walk == head + tail);
            assert(res@ + tail =~= res@.drop_last() + (head + tail));
        }
        step = s2 as u64;
        y = y + step;
    }
    proof {
        assert(hold_walk_ticks(*chart, lane, end as int, y as int, step as int)
            =~= Seq::<PlacedScoreTick>::empty());
        assert(res@ =~= res@ + Seq::<PlacedScoreTick>::empty());
    }
    res
}

/// The slam tick of a control point, if the point has a slam target: a
/// `Slam` from the point's entry value to its target, placed at the point's
/// absolute tick (`y` is the section start).
pub open spec fn slam_of(p: GraphSectionPoint, lane: usize, y: int) -> Option<PlacedScoreTick> {
    match p.vf {
        Some(vf) => Some(
            PlacedScoreTick {
                y: (y + p.ry) as u32,
                tick: ScoreTick::Slam { lane, start: p.v, end: vf },
            },
        ),
        None => None,
    }
}

/// The slam tick of `point`, if there is a point and it has a slam target.
pub fn get_if_slam(point: Option<&GraphSectionPoint>, lane: usize, y: u32) -> (r: Option<
    PlacedScoreTick,
>)
    requires
        match point {
            Some(p) => y + p.ry <= u32::MAX,
            None => true,
        },
    ensures
        r == match point {
            Some(p) => slam_of(*p, lane, y as int),
            None => None::<PlacedScoreTick>,
        },
{
    if let Some(s) = point {
        if let Some(vf) = s.vf {
            Some(
                PlacedScoreTick {
                    y: y + s.ry,
                    tick: ScoreTick::Slam { lane, end: vf, start: s.v },
                },
            )
        } else {
            None
        }
    } else {
        None
    }
}

/// Lane position at tick `y` as emitted on a laser tick: the section's curve
/// value, or `0` where the curve is not defined.
pub open spec fn laser_pos_at(sec: LaserSection, y: int) -> int {
    match sec.value_at_spec(y) {
        Some(v) => v,
        None => 0,
    }
}

/// The periodic laser tick emitted at position `y` of a section.
pub open spec fn laser_tick(sec: LaserSection, lane: usize, y: int) -> PlacedScoreTick {
    PlacedScoreTick {
        y: y as u32,
        tick: ScoreTick::Laser { lane, pos: laser_pos_at(sec, y) as u32 },
    }
}

/// Position of the most recently emitted tick: the last of `ticks` if any
/// were emitted, the carried-over `prev` otherwise.
pub open spec fn last_tick_pos(ticks: Seq<PlacedScoreTick>, prev: Option<int>) -> Option<int> {
    if ticks.len() > 0 {
        Some(ticks.last().y as int)
    } else {
        prev
    }
}

pub proof fn lemma_last_tick_pos_concat(a: Seq<PlacedScoreTick>, b: Seq<PlacedScoreTick>, p: Option<int>)
    ensures
        last_tick_pos(a + b, p) == last_tick_pos(b, last_tick_pos(a, p)),
{
    if b.len() > 0 {
        assert((a + b).last() == b.last());
    } else {
        assert(a + b =~= a);
    }
}

/// The laser ticks of one quantized walk from position `y` towards `end`,
/// with the same stepping as a hold walk. A candidate position that
/// coincides with the most recently emitted tick's position (`last`) is
/// suppressed; the walk still advances through it.
pub open spec fn laser_walk_ticks(
    c: Chart,
    sec: LaserSection,
    lane: usize,
    end: int,
    y: int,
    step: int,
    last: Option<int>,
) -> Seq<PlacedScoreTick>
    decreases end - y,
{
    if 0 < step && y + step <= end {
        let emit = last != Some(y);
        let head = if emit {
            seq![laser_tick(sec, lane, y)]
        } else {
            Seq::empty()
        };
        let s2 = step_at(c, y);
        let last2 = if emit {
            Some(y)
        } else {
            last
        };
        if 0 < s2 && y + s2 <= end {
            head + laser_walk_ticks(c, sec, lane, end, y + s2, s2, last2)
        } else {
            head
        }
    } else {
        Seq::empty()
    }
}

/// The ticks of the section's segments from segment `i` on (a segment is a
/// consecutive pair of control points), with `last` the position of the most
/// recently emitted tick. Per segment: the earlier point's slam tick if it
/// has one, then a quantized laser walk across the segment. The walk starts
/// at the earlier point, pushed one step forward on the first segment or
/// right after a slam, and rounded down to a quantization boundary.
pub open spec fn laser_segment_ticks(
    c: Chart,
    sec: LaserSection,
    lane: usize,
    i: int,
    last: Option<int>,
) -> Seq<PlacedScoreTick>
    decreases sec.v@.len() - i,
{
    if 0 <= i && i + 1 < sec.v@.len() {
        let s = sec.v@[i];
        let e = sec.v@[i + 1];
        let slam = match slam_of(s, lane, sec.y as int) {
            Some(t) => seq![t],
            None => Seq::empty(),
        };
        let last1 = last_tick_pos(slam, last);
        let y0 = sec.y + s.ry;
        let step0 = step_at(c, y0);
        let y1 = if s.vf is Some || i == 0 {
            y0 + step0
        } else {
            y0
        };
        let y2 = if step0 > 0 {
            y1 - y1 % step0
        } else {
            y1
        };
        let inner = laser_walk_ticks(c, sec, lane, sec.y + e.ry, y2, step0, last1);
        let last2 = last_tick_pos(inner, last1);
        slam + inner + laser_segment_ticks(c, sec, lane, i + 1, last2)
    } else {
        Seq::empty()
    }
}

/// All score ticks of a laser section: the per-segment ticks, then the final
/// control point's slam tick if it has one (the last point never is the
/// earlier point of a segment, so its slam is detected separately).
pub open spec fn laser_section_ticks(c: Chart, sec: LaserSection, lane: usize) -> Seq<
    PlacedScoreTick,
> {
    let main = laser_segment_ticks(c, sec, lane, 0, None);
    let trail = if sec.v@.len() > 0 {
        match slam_of(sec.v@.last(), lane, sec.y as int) {
            Some(t) => seq![t],
            None => Seq::empty(),
        }
    } else {
        Seq::empty()
    };
    main + trail
}

/// Appends one quantized laser walk towards `end` to `res`, suppressing a
/// candidate that lands on the previously emitted tick's position.
fn push_laser_walk(
    chart: &Chart,
    section: &LaserSection,
    lane: usize,
    end: u64,
    y_init: u64,
    step_init: u32,
    res: &mut Vec<PlacedScoreTick>,
)
    requires
        chart.beat.wf(),
        section.wf(),
        end <= u32::MAX,
        1 <= step_init,
        y_init <= end + step_init,
    ensures
        final(res)@ == old(res)@ + laser_walk_ticks(
            *chart,
            *section,
            lane,
            end as int,
            y_init as int,
            step_init as int,
            last_tick_pos(old(res)@, None),
        ),
{
    let mut y: u64 = y_init;
    let mut step: u64 = step_init as u64;
    while y + step <= end
        invariant
            chart.beat.wf(),
            section.wf(),
            end <= u32::MAX,
            1 <= step <= u32::MAX,
            y <= end + step,
            old(res)@ + laser_walk_ticks(
                *chart,
                *section,
                lane,
                end as int,
                y_init as int,
                step_init as int,
                last_tick_pos(old(res)@, None),
            ) == res@ + laser_walk_ticks(
                *chart,
                *section,
                lane,
                end as int,
                y as int,
                step as int,
                last_tick_pos(res@, None),
            ),
        decreases end + step - y,
    {
        let yu: u32 = y as u32;
        let ghost res_pre = res@;
        let dup = if res.len() > 0 {
            res[res.len() - 1].y == yu
        } else {
            false
        };
        if !dup {
            let pos = match section.value_at(yu) {
                Some(p) => p,
                None => 0,
            };
            res.push(PlacedScoreTick { y: yu, tick: ScoreTick::Laser { lane, pos } });
        }
        let s2: u32 = get_hold_step_at(yu, chart);
        proof {
            lemma_step_at_pos(*chart, y as int);
            let last = last_tick_pos(res_pre, None);
            let emit = last != Some(y as int);
            assert(emit == !dup);
            let walk = laser_walk_ticks(
                *chart,
                *section,
                lane,
                end as int,
                y as int,
                step as int,
                last,
            );
            let head = if emit {
                seq![laser_tick(*section, lane, y as int)]
            } else {
                Seq::<PlacedScoreTick>::empty()
            };
            let last2 = if emit {
                Some(y as int)
            } else {
                last
            };
            let tail = laser_walk_ticks(
                *chart,
                *section,
                lane,
                end as int,
                y as int + s2 as int,
                s2 as int,
                last2,
            );
            if !(y as int + s2 as int <= end as int) {
                assert(tail =~= Seq::<PlacedScoreTick>::empty());
                assert(walk =~= head + tail);
            }
            assert(walk == head + tail);
            assert(res@ =~= res_pre + head);
            assert(last_tick_pos(res@, None) == last2);
            assert(res_pre + (head + tail) =~= (res_pre + head) + tail);
        }
        step = s2 as u64;
        y = y + step;
    }
    proof {
        assert(laser_walk_ticks(
            *chart,
            *section,
            lane,
            end as int,
            y as int,
            step as int,
            last_tick_pos(res@, None),
        ) =~= Seq::<PlacedScoreTick>::empty());
        assert(res@ =~= res@ + Seq::<PlacedScoreTick>::empty());
    }
}

/// Expands one laser section of `lane` into its score ticks: slam ticks at
/// slamming control points, periodic `Laser` ticks across the segments in
/// between, and the final point's slam tick last.
pub fn ticks_from_laser_section(section: &LaserSection, lane: usize, chart: &Chart) -> (res: Vec<
    PlacedScoreTick,
>)
    requires
        chart.beat.wf(),
        section.wf(),
    ensures
        res@ == laser_section_ticks(*chart, *section, lane),
{
    let mut res: Vec<PlacedScoreTick> = Vec::new();
    let n = section.v.len();
    let mut i: usize = 0;
    while i + 1 < n
        invariant
            chart.beat.wf(),
            section.wf(),
            n == section.v@.len(),
            0 <= i < n,
            laser_segment_ticks(*chart, *section, lane, 0, None) == res@ + laser_segment_ticks(
                *chart,
                *section,
                lane,
                i as int,
                last_tick_pos(res@, None),
            ),
        decreases n - i,
    {
        let ghost res0 = res@;
        let ghost last0 = last_tick_pos(res0, None);
        let s = section.v[i];
        let e = section.v[i + 1];
        if let Some(t) = get_if_slam(Some(&s), lane, section.y) {
            res.push(t);
        }
        let ghost slam = match slam_of(s, lane, section.y as int) {
            Some(t) => seq![t],
            None => Seq::<PlacedScoreTick>::empty(),
        };
        proof {
            assert(res@ =~= res0 + slam);
            lemma_last_tick_pos_concat(res0, slam, None);
        }
        let ghost res1 = res@;
        let y0: u32 = section.y + s.ry;
        let step0: u32 = get_hold_step_at(y0, chart);
        proof {
            lemma_step_at_pos(*chart, y0 as int);
        }
        let end: u64 = section.y as u64 + e.ry as u64;
        let t0: u64 = if s.vf.is_some() || i == 0 {
            y0 as u64 + step0 as u64
        } else {
            y0 as u64
        };
        proof {
            assert((t0 as int) % (step0 as int) <= t0 as int) by (nonlinear_arith)
                requires
                    0 < step0,
            ;
        }
        let y_init: u64 = t0 - t0 % step0 as u64;
        push_laser_walk(chart, section, lane, end, y_init, step0, &mut res);
        let ghost inner = laser_walk_ticks(
            *chart,
            *section,
            lane,
            end as int,
            y_init as int,
            step0 as int,
            last_tick_pos(res1, None),
        );
        proof {
            assert(res@ == res1 + inner);
            lemma_last_tick_pos_concat(res1, inner, None);
            assert(laser_segment_ticks(*chart, *section, lane, i as int, last0) == slam + inner
                + laser_segment_ticks(*chart, *section, lane, i as int + 1, last_tick_pos(res@, None)));
            assert(res0 + (slam + inner + laser_segment_ticks(
                *chart,
                *section,
                lane,
                i as int + 1,
                last_tick_pos(res@, None),
            )) =~= (res0 + slam + inner) + laser_segment_ticks(
                *chart,
                *section,
                lane,
                i as int + 1,
                last_tick_pos(res@, None),
            ));
            assert(res@ =~= res0 + slam + inner);
        }
        i = i + 1;
    }
    proof {
        assert(laser_segment_ticks(
            *chart,
            *section,
            lane,
            i as int,
            last_tick_pos(res@, None),
        ) =~= Seq::<PlacedScoreTick>::empty());
        assert(res@ =~= res@ + Seq::<PlacedScoreTick>::empty());
        assert(res@ == laser_segment_ticks(*chart, *section, lane, 0, None));
    }
    if n > 0 {
        let lastp = section.v[n - 1];
        proof {
            assert(section.v@.last() == lastp);
        }
        if let Some(t) = get_if_slam(Some(&lastp), lane, section.y) {
            res.push(t);
        }
    }
    proof {
        assert(res@ =~= laser_section_ticks(*chart, *section, lane));
    }
    res
}

/// `s` is ordered by non-decreasing position.
pub open spec fn sorted_by_y(s: Seq<PlacedScoreTick>) -> bool {
    forall|i: int, j: int| 0 <= i < j < s.len() ==> s[i].y <= s[j].y
}

/// `t` inserted into `s` after every element at or before `t`'s position:
/// the insertion a stable sort performs. Ties keep `s`'s elements first.
pub open spec fn insert_by_y(s: Seq<PlacedScoreTick>, t: PlacedScoreTick) -> Seq<PlacedScoreTick>
    decreases s.len(),
{
    if s.len() > 0 && s.last().y > t.y {
        insert_by_y(s.drop_last(), t).push(s.last())
    } else {
        s.push(t)
    }
}

/// `s` stably sorted by position: insertion sort, so elements with equal
/// positions keep their relative order in `s`.
pub open spec fn sort_by_y(s: Seq<PlacedScoreTick>) -> Seq<PlacedScoreTick>
    decreases s.len(),
{
    if s.len() == 0 {
        Seq::empty()
    } else {
        insert_by_y(sort_by_y(s.drop_last()), s.last())
    }
}

pub proof fn lemma_insert_by_y_sorted(s: Seq<PlacedScoreTick>, t: PlacedScoreTick)
    requires
        sorted_by_y(s),
    ensures
        sorted_by_y(insert_by_y(s, t)),
        insert_by_y(s, t).to_multiset() == s.to_multiset().insert(t),
        insert_by_y(s, t).len() == s.len() + 1,
    decreases s.len(),
{
    broadcast use vstd::seq_lib::group_seq_properties;

    if s.len() > 0 && s.last().y > t.y {
        assert(forall|i: int, j: int|
            0 <= i < j < s.drop_last().len() ==> s.drop_last()[i].y <= s.drop_last()[j].y);
        lemma_insert_by_y_sorted(s.drop_last(), t);
        let r = insert_by_y(s.drop_last(), t);
        assert forall|i: int| 0 <= i < r.len() implies r.push(s.last())[i].y
            <= s.last().y by {
            assert(r.to_multiset().contains(r[i]));
            if r[i] == t {
            } else {
                assert(s.drop_last().to_multiset().contains(r[i]));
                let k = choose|k: int| 0 <= k < s.drop_last().len() && s.drop_last()[k] == r[i];
                assert(s[k].y <= s.last().y);
            }
        }
        assert(s.drop_last().push(s.last()) =~= s);
        assert(s.drop_last().to_multiset().insert(s.last()) == s.to_multiset()) by {
            vstd::seq_lib::lemma_seq_union_to_multiset_commutative(s.drop_last(), seq![s.last()]);
            assert(s.drop_last() + seq![s.last()] =~= s);
            assert(seq![s.last()] + s.drop_last() =~= s.drop_last().insert(0, s.last()));
        }
    } else {
        assert(s.push(t) =~= s + seq![t]);
    }
}

pub proof fn lemma_sort_by_y_sorted(s: Seq<PlacedScoreTick>)
    ensures
        sorted_by_y(sort_by_y(s)),
        sort_by_y(s).to_multiset() == s.to_multiset(),
        sort_by_y(s).len() == s.len(),
    decreases s.len(),
{
    broadcast use vstd::seq_lib::group_seq_properties;

    if s.len() > 0 {
        lemma_sort_by_y_sorted(s.drop_last());
        lemma_insert_by_y_sorted(sort_by_y(s.drop_last()), s.last());
        assert(s.drop_last().push(s.last()) =~= s);
    }
}

/// Stable insertion sort of placed ticks by position. Ties across lanes keep
/// the order the generator emitted them in (the chart format defines no
/// canonical tie order).
fn sort_ticks(v: Vec<PlacedScoreTick>) -> (r: Vec<PlacedScoreTick>)
    ensures
        r@ == sort_by_y(v@),
        sorted_by_y(r@),
{
    let mut out: Vec<PlacedScoreTick> = Vec::new();
    let mut i: usize = 0;
    proof {
        assert(v@.take(0) =~= Seq::<PlacedScoreTick>::empty());
        lemma_sort_by_y_sorted(v@.take(0));
    }
    while i < v.len()
        invariant
            i <= v@.len(),
            out@ == sort_by_y(v@.take(i as int)),
            sorted_by_y(out@),
        decreases v@.len() - i,
    {
        let t = v[i];
        let mut j: usize = out.len();
        proof {
            assert(out@.skip(j as int) =~= Seq::<PlacedScoreTick>::empty());
            assert(insert_by_y(out@, t) == insert_by_y(out@.take(j as int), t) + out@.skip(
                j as int,
            )) by {
                assert(out@.take(j as int) =~= out@);
                assert(insert_by_y(out@, t) + Seq::<PlacedScoreTick>::empty() =~= insert_by_y(
                    out@,
                    t,
                ));
            }
        }
        while j > 0 && out[j - 1].y > t.y
            invariant
                j <= out@.len(),
                sorted_by_y(out@),
                insert_by_y(out@, t) == insert_by_y(out@.take(j as int), t) + out@.skip(j as int),
                j < out@.len() ==> out@[j as int].y > t.y,
            decreases j,
        {
            proof {
                let pre = out@.take(j as int);
                assert(pre.last() == out@[j as int - 1]);
                assert(pre.drop_last() =~= out@.take(j as int - 1));
                assert(insert_by_y(pre, t) == insert_by_y(out@.take(j as int - 1), t).push(
                    out@[j as int - 1],
                ));
                assert(insert_by_y(out@.take(j as int - 1), t).push(out@[j as int - 1]) + out@.skip(
                    j as int,
                ) =~= insert_by_y(out@.take(j as int - 1), t) + out@.skip(j as int - 1));
            }
            j = j - 1;
        }
        proof {
            let pre = out@.take(j as int);
            assert(!(pre.len() > 0 && pre.last().y > t.y));
            assert(insert_by_y(pre, t) == pre.push(t));
            assert(pre.push(t) + out@.skip(j as int) =~= out@.insert(j as int, t));
        }
        out.insert(j, t);
        proof {
            assert(v@.take(i as int + 1).drop_last() =~= v@.take(i as int));
            assert(v@.take(i as int + 1).last() == t);
            lemma_insert_by_y_sorted(sort_by_y(v@.take(i as int)), t);
        }
        i = i + 1;
    }
    proof {
        assert(v@.take(v@.len() as int) =~= v@);
    }
    out
}

/// The score ticks of the intervals `ivs` of one lane, in lane order.
pub open spec fn lane_ticks(c: Chart, ivs: Seq<Interval>, lane: usize) -> Seq<PlacedScoreTick>
    decreases ivs.len(),
{
    if ivs.len() == 0 {
        Seq::empty()
    } else {
        lane_ticks(c, ivs.drop_last(), lane) + interval_ticks(c, ivs.last(), lane)
    }
}

/// The score ticks of the laser sections `secs` of one lane, in lane order.
pub open spec fn laser_lane_ticks(c: Chart, secs: Seq<LaserSection>, lane: usize) -> Seq<
    PlacedScoreTick,
>
    decreases secs.len(),
{
    if secs.len() == 0 {
        Seq::empty()
    } else {
        laser_lane_ticks(c, secs.drop_last(), lane) + laser_section_ticks(c, secs.last(), lane)
    }
}

/// Concatenated ticks of the first `k` button lanes.
pub open spec fn bt_ticks_upto(c: Chart, k: int) -> Seq<PlacedScoreTick>
    decreases k,
{
    if k <= 0 {
        Seq::empty()
    } else {
        bt_ticks_upto(c, k - 1) + lane_ticks(c, c.note.bt@[k - 1]@, (k - 1) as usize)
    }
}

/// Concatenated ticks of the first `k` FX lanes.
pub open spec fn fx_ticks_upto(c: Chart, k: int) -> Seq<PlacedScoreTick>
    decreases k,
{
    if k <= 0 {
        Seq::empty()
    } else {
        fx_ticks_upto(c, k - 1) + lane_ticks(c, c.note.fx@[k - 1]@, (k - 1) as usize)
    }
}

/// Concatenated ticks of the first `k` laser lanes.
pub open spec fn laser_ticks_upto(c: Chart, k: int) -> Seq<PlacedScoreTick>
    decreases k,
{
    if k <= 0 {
        Seq::empty()
    } else {
        laser_ticks_upto(c, k - 1) + laser_lane_ticks(c, c.note.laser@[k - 1]@, (k - 1) as usize)
    }
}

/// Every score tick of the chart, lane pass by lane pass, before sorting:
/// button lanes, then FX lanes, then laser lanes.
pub open spec fn all_raw_ticks(c: Chart) -> Seq<PlacedScoreTick> {
    bt_ticks_upto(c, 4) + fx_ticks_upto(c, 2) + laser_ticks_upto(c, 2)
}

/// The chart's score tick timeline: every generated tick, stably sorted by
/// position. This function of the chart alone is what compilation returns,
/// so two compilations of one chart agree exactly.
pub open spec fn score_ticks_spec(c: Chart) -> Seq<PlacedScoreTick> {
    sort_by_y(all_raw_ticks(c))
}

/// Compiles the chart's score tick timeline: every judgeable event of every
/// lane, sorted ascending by position. Ties between lanes keep the
/// generation order (button, FX, laser lanes, each in lane order), which no
/// caller should rely on.
pub fn generate_score_ticks(chart: &Chart) -> (res: Vec<PlacedScoreTick>)
    requires
        chart.wf(),
    ensures
        res@ == score_ticks_spec(*chart),
        sorted_by_y(res@),
        res@.to_multiset() == all_raw_ticks(*chart).to_multiset(),
{
    let mut acc: Vec<PlacedScoreTick> = Vec::new();
    let mut lane: usize = 0;
    while lane < 4
        invariant
            chart.wf(),
            lane <= 4,
            acc@ == bt_ticks_upto(*chart, lane as int),
        decreases 4 - lane,
    {
        let m = chart.note.bt[lane].len();
        let mut i: usize = 0;
        proof {
            assert(chart.note.bt@[lane as int]@.take(0) =~= Seq::<Interval>::empty());
            assert(acc@ =~= acc@ + Seq::<PlacedScoreTick>::empty());
        }
        while i < m
            invariant
                chart.wf(),
                lane < 4,
                m == chart.note.bt@[lane as int]@.len(),
                i <= m,
                acc@ == bt_ticks_upto(*chart, lane as int) + lane_ticks(
                    *chart,
                    chart.note.bt@[lane as int]@.take(i as int),
                    lane,
                ),
            decreases m - i,
        {
            let iv = chart.note.bt[lane][i];
            proof {
                assert(lane_fits(chart.note.bt@[lane as int]@));
                assert(chart.note.bt@[lane as int]@[i as int].fits());
            }
            let mut t = ticks_from_interval(&iv, lane, chart);
            acc.append(&mut t);
            proof {
                let ivs = chart.note.bt@[lane as int]@;
                assert(ivs.take(i as int + 1).drop_last() =~= ivs.take(i as int));
                assert(ivs.take(i as int + 1).last() == iv);
                assert((bt_ticks_upto(*chart, lane as int) + lane_ticks(
                    *chart,
                    ivs.take(i as int),
                    lane,
                )) + interval_ticks(*chart, iv, lane) =~= bt_ticks_upto(*chart, lane as int)
                    + lane_ticks(*chart, ivs.take(i as int + 1), lane));
            }
            i = i + 1;
        }
        proof {
            let ivs = chart.note.bt@[lane as int]@;
            assert(ivs.take(m as int) =~= ivs);
        }
        lane = lane + 1;
    }
    let mut lane: usize = 0;
    while lane < 2
        invariant
            chart.wf(),
            lane <= 2,
            acc@ == bt_ticks_upto(*chart, 4) + fx_ticks_upto(*chart, lane as int),
        decreases 2 - lane,
    {
        let m = chart.note.fx[lane].len();
        let mut i: usize = 0;
        proof {
            assert(chart.note.fx@[lane as int]@.take(0) =~= Seq::<Interval>::empty());
            assert(acc@ =~= acc@ + Seq::<PlacedScoreTick>::empty());
        }
        while i < m
            invariant
                chart.wf(),
                lane < 2,
                m == chart.note.fx@[lane as int]@.len(),
                i <= m,
                acc@ == bt_ticks_upto(*chart, 4) + fx_ticks_upto(*chart, lane as int) + lane_ticks(
                    *chart,
                    chart.note.fx@[lane as int]@.take(i as int),
                    lane,
                ),
            decreases m - i,
        {
            let iv = chart.note.fx[lane][i];
            proof {
                assert(lane_fits(chart.note.fx@[lane as int]@));
                assert(chart.note.fx@[lane as int]@[i as int].fits());
            }
            let mut t = ticks_from_interval(&iv, lane, chart);
            acc.append(&mut t);
            proof {
                let ivs = chart.note.fx@[lane as int]@;
                assert(ivs.take(i as int + 1).drop_last() =~= ivs.take(i as int));
                assert(ivs.take(i as int + 1).last() == iv);
                assert((bt_ticks_upto(*chart, 4) + fx_ticks_upto(*chart, lane as int) + lane_ticks(
                    *chart,
                    ivs.take(i as int),
                    lane,
                )) + interval_ticks(*chart, iv, lane) =~= bt_ticks_upto(*chart, 4) + fx_ticks_upto(
                    *chart,
                    lane as int,
                ) + lane_ticks(*chart, ivs.take(i as int + 1), lane));
            }
            i = i + 1;
        }
        proof {
            let ivs = chart.note.fx@[lane as int]@;
            assert(ivs.take(m as int) =~= ivs);
        }
        lane = lane + 1;
    }
    let mut lane: usize = 0;
    while lane < 2
        invariant
            chart.wf(),
            lane <= 2,
            acc@ == bt_ticks_upto(*chart, 4) + fx_ticks_upto(*chart, 2) + laser_ticks_upto(
                *chart,
                lane as int,
            ),
        decreases 2 - lane,
    {
        let m = chart.note.laser[lane].len();
        let mut i: usize = 0;
        proof {
            assert(chart.note.laser@[lane as int]@.take(0) =~= Seq::<LaserSection>::empty());
            assert(acc@ =~= acc@ + Seq::<PlacedScoreTick>::empty());
        }
        while i < m
            invariant
                chart.wf(),
                lane < 2,
                m == chart.note.laser@[lane as int]@.len(),
                i <= m,
                acc@ == bt_ticks_upto(*chart, 4) + fx_ticks_upto(*chart, 2) + laser_ticks_upto(
                    *chart,
                    lane as int,
                ) + laser_lane_ticks(
                    *chart,
                    chart.note.laser@[lane as int]@.take(i as int),
                    lane,
                ),
            decreases m - i,
        {
            let sec = &chart.note.laser[lane][i];
            proof {
                assert(chart.note.laser@[lane as int]@[i as int].wf());
            }
            let mut t = ticks_from_laser_section(sec, lane, chart);
            acc.append(&mut t);
            proof {
                let secs = chart.note.laser@[lane as int]@;
                assert(secs.take(i as int + 1).drop_last() =~= secs.take(i as int));
                assert(secs.take(i as int + 1).last() == secs[i as int]);
                assert((bt_ticks_upto(*chart, 4) + fx_ticks_upto(*chart, 2) + laser_ticks_upto(
                    *chart,
                    lane as int,
                ) + laser_lane_ticks(*chart, secs.take(i as int), lane)) + laser_section_ticks(
                    *chart,
                    secs[i as int],
                    lane,
                ) =~= bt_ticks_upto(*chart, 4) + fx_ticks_upto(*chart, 2) + laser_ticks_upto(
                    *chart,
                    lane as int,
                ) + laser_lane_ticks(*chart, secs.take(i as int + 1), lane));
            }
            i = i + 1;
        }
        proof {
            let secs = chart.note.laser@[lane as int]@;
            assert(secs.take(m as int) =~= secs);
        }
        lane = lane + 1;
    }
    proof {
        assert(acc@ =~= all_raw_ticks(*chart));
        lemma_sort_by_y_sorted(acc@);
    }
    sort_ticks(acc)
}

/// Aggregate counts over a score tick timeline; derived, never stored
/// independently of the timeline it describes.
#[derive(Debug, Default, Clone, Copy, PartialEq, Eq, Structural)]
pub struct ScoreTickSummary {
    pub chip_count: u32,
    pub hold_count: u32,
    pub laser_count: u32,
    pub slam_count: u32,
    /// Total number of ticks; always the sum of the four counts.
    pub total: u32,
}

/// Number of `Chip` ticks in `s`.
pub open spec fn count_chips(s: Seq<PlacedScoreTick>) -> int
    decreases s.len(),
{
    if s.len() == 0 {
        0
    } else {
        count_chips(s.drop_last()) + if s.last().tick is Chip {
            1int
        } else {
            0int
        }
    }
}

/// Number of `Hold` ticks in `s`.
pub open spec fn count_holds(s: Seq<PlacedScoreTick>) -> int
    decreases s.len(),
{
    if s.len() == 0 {
        0
    } else {
        count_holds(s.drop_last()) + if s.last().tick is Hold {
            1int
        } else {
            0int
        }
    }
}

/// Number of `Laser` ticks in `s`.
pub open spec fn count_lasers(s: Seq<PlacedScoreTick>) -> int
    decreases s.len(),
{
    if s.len() == 0 {
        0
    } else {
        count_lasers(s.drop_last()) + if s.last().tick is Laser {
            1int
        } else {
            0int
        }
    }
}

/// Number of `Slam` ticks in `s`.
pub open spec fn count_slams(s: Seq<PlacedScoreTick>) -> int
    decreases s.len(),
{
    if s.len() == 0 {
        0
    } else {
        count_slams(s.drop_last()) + if s.last().tick is Slam {
            1int
        } else {
            0int
        }
    }
}

/// The four per-variant counts are non-negative and partition the timeline:
/// their sum is exactly its length.
pub proof fn lemma_counts_partition(s: Seq<PlacedScoreTick>)
    ensures
        0 <= count_chips(s),
        0 <= count_holds(s),
        0 <= count_lasers(s),
        0 <= count_slams(s),
        count_chips(s) + count_holds(s) + count_lasers(s) + count_slams(s) == s.len(),
    decreases s.len(),
{
    if s.len() > 0 {
        lemma_counts_partition(s.drop_last());
    }
}

/// The summary of a timeline: per-variant counts, with `total` the
/// timeline's length (equal to the counts' sum).
pub open spec fn summary_spec(s: Seq<PlacedScoreTick>) -> ScoreTickSummary {
    ScoreTickSummary {
        chip_count: count_chips(s) as u32,
        hold_count: count_holds(s) as u32,
        laser_count: count_lasers(s) as u32,
        slam_count: count_slams(s) as u32,
        total: s.len() as u32,
    }
}

/// Number of ticks strictly before position `y`.
pub open spec fn count_below(s: Seq<PlacedScoreTick>, y: int) -> int
    decreases s.len(),
{
    if s.len() == 0 {
        0
    } else {
        count_below(s.drop_last(), y) + if s.last().y < y {
            1int
        } else {
            0int
        }
    }
}

/// Number of ticks exactly at position `y`.
pub open spec fn count_at(s: Seq<PlacedScoreTick>, y: int) -> int
    decreases s.len(),
{
    if s.len() == 0 {
        0
    } else {
        count_at(s.drop_last(), y) + if s.last().y == y {
            1int
        } else {
            0int
        }
    }
}

/// The combo a player has at position `y`: every tick at or before `y` is
/// counted, ticks sharing `y` included.
pub open spec fn combo_at_spec(s: Seq<PlacedScoreTick>, y: int) -> int {
    count_below(s, y) + count_at(s, y)
}

/// In a timeline split at index `k` (everything before `k` at or below `y`,
/// everything from `k` on strictly above it), exactly `k` ticks lie at or
/// below `y`.
proof fn lemma_count_le_index(s: Seq<PlacedScoreTick>, y: int, k: int)
    requires
        0 <= k <= s.len(),
        forall|i: int| 0 <= i < k ==> s[i].y <= y,
        forall|i: int| k <= i < s.len() ==> s[i].y > y,
    ensures
        count_below(s, y) + count_at(s, y) == k,
    decreases s.len(),
{
    if s.len() > 0 {
        if k == s.len() {
            lemma_count_le_index(s.drop_last(), y, k - 1);
        } else {
            lemma_count_le_index(s.drop_last(), y, k);
        }
    }
}

/// A scoring view of a score tick timeline: aggregate counts and the combo
/// at a position.
pub trait ScoreTicker {
    /// The placed ticks this timeline holds, in order.
    spec fn ticks(&self) -> Seq<PlacedScoreTick>;

    /// Aggregate counts of the timeline, recomputed by one pass over it.
    fn summary(&self) -> (r: ScoreTickSummary)
        requires
            self.ticks().len() <= u32::MAX,
        ensures
            r == summary_spec(self.ticks()),
            r.total == self.ticks().len(),
            r.total == r.chip_count + r.hold_count + r.laser_count + r.slam_count,
    ;

    /// The combo at position `y`: the number of ticks at or before `y`,
    /// ticks sharing position `y` all counted.
    fn get_combo_at(&self, y: u32) -> (r: u32)
        requires
            sorted_by_y(self.ticks()),
            self.ticks().len() <= u32::MAX,
        ensures
            r as int == combo_at_spec(self.ticks(), y as int),
    ;
}

impl ScoreTicker for Vec<PlacedScoreTick> {
    open spec fn ticks(&self) -> Seq<PlacedScoreTick> {
        self@
    }

    fn summary(&self) -> (r: ScoreTickSummary) {
        let mut r = ScoreTickSummary {
            chip_count: 0,
            hold_count: 0,
            laser_count: 0,
            slam_count: 0,
            total: 0,
        };
        let mut i: usize = 0;
        proof {
            assert(self@.take(0) =~= Seq::<PlacedScoreTick>::empty());
        }
        while i < self.len()
            invariant
                i <= self@.len(),
                self@.len() <= u32::MAX,
                r.chip_count == count_chips(self@.take(i as int)),
                r.hold_count == count_holds(self@.take(i as int)),
                r.laser_count == count_lasers(self@.take(i as int)),
                r.slam_count == count_slams(self@.take(i as int)),
                r.total == i,
            decreases self@.len() - i,
        {
            proof {
                lemma_counts_partition(self@.take(i as int));
                assert(self@.take(i as int + 1).drop_last() =~= self@.take(i as int));
                assert(self@.take(i as int + 1).last() == self@[i as int]);
            }
            r.total = r.total + 1;
            match self[i].tick {
                ScoreTick::Laser { .. } => {
                    r.laser_count = r.laser_count + 1;
                },
                ScoreTick::Slam { .. } => {
                    r.slam_count = r.slam_count + 1;
                },
                ScoreTick::Chip { .. } => {
                    r.chip_count = r.chip_count + 1;
                },
                ScoreTick::Hold { .. } => {
                    r.hold_count = r.hold_count + 1;
                },
            }
            i = i + 1;
        }
        proof {
            assert(self@.take(self@.len() as int) =~= self@);
            lemma_counts_partition(self@);
        }
        r
    }

    fn get_combo_at(&self, y: u32) -> (r: u32) {
        let mut lo: usize = 0;
        let mut hi: usize = self.len();
        while lo < hi
            invariant
                lo <= hi <= self@.len(),
                sorted_by_y(self@),
                forall|k: int| 0 <= k < lo ==> self@[k].y <= y,
                forall|k: int| hi <= k < self@.len() ==> self@[k].y > y,
            decreases hi - lo,
        {
            let mid = lo + (hi - lo) / 2;
            if self[mid].y <= y {
                lo = mid + 1;
            } else {
                hi = mid;
            }
        }
        proof {
            lemma_count_le_index(self@, y as int, lo as int);
        }
        lo as u32
    }
}

/// The combo is monotonic: moving the query position forward never lowers
/// it. Every tick counted at or before `y1` is also at or before `y2`.
pub proof fn lemma_combo_monotonic(s: Seq<PlacedScoreTick>, y1: int, y2: int)
    requires
        y1 <= y2,
    ensures
        combo_at_spec(s, y1) <= combo_at_spec(s, y2),
    decreases s.len(),
{
    if s.len() > 0 {
        lemma_combo_monotonic(s.drop_last(), y1, y2);
    }
}

/// At the position of the final tick of a sorted timeline, the combo is the
/// total tick count -- also when several ticks share that final position.
pub proof fn lemma_combo_at_last(s: Seq<PlacedScoreTick>)
    requires
        sorted_by_y(s),
        s.len() >= 1,
    ensures
        combo_at_spec(s, s.last().y as int) == s.len(),
{
    assert forall|i: int| 0 <= i < s.len() implies s[i].y <= s.last().y by {
        assert(s[i].y <= s[s.len() - 1].y || i == s.len() - 1);
    }
    lemma_count_le_index(s, s.last().y as int, s.len() as int);
}

/// A hold walk only moves forward: every emitted position lies at or after
/// the walk's start, and positions strictly increase.
proof fn lemma_hold_walk_increasing(c: Chart, lane: usize, end: int, y: int, step: int)
    requires
        c.beat.wf(),
        0 <= y,
        end <= u32::MAX,
    ensures
        forall|i: int|
            0 <= i < hold_walk_ticks(c, lane, end, y, step).len() ==> y <= (
            #[trigger] hold_walk_ticks(c, lane, end, y, step)[i]).y < end,
        forall|i: int, j: int|
            0 <= i < j < hold_walk_ticks(c, lane, end, y, step).len() ==> hold_walk_ticks(
                c,
                lane,
                end,
                y,
                step,
            )[i].y < hold_walk_ticks(c, lane, end, y, step)[j].y,
    decreases end - y,
{
    if 0 < step && y + step <= end {
        let w = hold_walk_ticks(c, lane, end, y, step);
        let s2 = step_at(c, y);
        lemma_step_at_pos(c, y);
        if 0 < s2 && y + s2 <= end {
            lemma_hold_walk_increasing(c, lane, end, y + s2, s2);
            let w2 = hold_walk_ticks(c, lane, end, y + s2, s2);
            assert(forall|i: int| 0 <= i < w2.len() ==> w[i + 1] == w2[i]);
            assert(w[0].y == y as u32);
        }
    }
}

/// Hold ticks of an interval lie strictly inside the interval and strictly
/// increase, whatever the tempo does across the hold.
pub proof fn lemma_hold_ticks_increasing(c: Chart, iv: Interval, lane: usize)
    requires
        c.beat.wf(),
        iv.fits(),
        iv.l > 0,
    ensures
        forall|i: int|
            0 <= i < interval_ticks(c, iv, lane).len() ==> iv.y < (
            #[trigger] interval_ticks(c, iv, lane)[i]).y < iv.y + iv.l,
        forall|i: int, j: int|
            0 <= i < j < interval_ticks(c, iv, lane).len() ==> interval_ticks(c, iv, lane)[i].y
                < interval_ticks(c, iv, lane)[j].y,
{
    let k = step_at(c, iv.y as int);
    lemma_step_at_pos(c, iv.y as int);
    let y0 = first_quant(iv.y as int, k);
    assert(iv.y < y0 <= iv.y + k) by {
        let t = iv.y + k;
        assert(0 <= t % k < k) by (nonlinear_arith)
            requires
                0 < k,
        ;
    }
    lemma_hold_walk_increasing(c, lane, iv.y + iv.l, y0, k);
}

/// Every position a constant-step hold walk visits from `y` on: the `i`-th
/// emitted tick lies at `y + i * k`, and leaves a full step before `end`.
pub proof fn lemma_hold_walk_const_step(c: Chart, lane: usize, end: int, y: int, k: int)
    requires
        0 < k,
        0 <= y,
        end <= u32::MAX,
        forall|t: int| y <= t <= end ==> step_at(c, t) == k,
    ensures
        forall|i: int|
            0 <= i < hold_walk_ticks(c, lane, end, y, k).len() ==> (
            #[trigger] hold_walk_ticks(c, lane, end, y, k)[i]).y == y + i * k && y + i * k + k
                <= end,
    decreases end - y,
{
    if y + k <= end {
        let w = hold_walk_ticks(c, lane, end, y, k);
        assert(step_at(c, y) == k);
        lemma_hold_walk_const_step(c, lane, end, y + k, k);
        let w2 = hold_walk_ticks(c, lane, end, y + k, k);
        assert forall|i: int| 0 <= i < w.len() implies (#[trigger] w[i]).y == y + i * k && y + i
            * k + k <= end by {
            if i == 0 {
                assert(w[0].y == y as u32);
            } else {
                if y + 2 * k <= end {
                    assert(w[i] == w2[i - 1]);
                    assert(w2[i - 1].y == (y + k) + (i - 1) * k);
                    assert((y + k) + (i - 1) * k == y + i * k) by (nonlinear_arith);
                } else {
                    assert(w.len() == 1);
                }
            }
        }
    }
}

/// Every hold tick of an interval over a constant-tempo-class region lies
/// strictly inside the interval, leaving at least one quantization step
/// before the interval's end; and the ticks strictly increase.
pub proof fn lemma_hold_ticks_in_interval(c: Chart, iv: Interval, lane: usize)
    requires
        c.beat.wf(),
        iv.fits(),
        iv.l > 0,
        forall|t: int| iv.y <= t <= iv.y + iv.l ==> #[trigger] step_at(c, t) == step_at(c, iv.y as int),
    ensures
        forall|i: int|
            0 <= i < interval_ticks(c, iv, lane).len() ==> iv.y < (
            #[trigger] interval_ticks(c, iv, lane)[i]).y && interval_ticks(c, iv, lane)[i].y
                + step_at(c, interval_ticks(c, iv, lane)[i].y as int) <= iv.y + iv.l,
        forall|i: int, j: int|
            0 <= i < j < interval_ticks(c, iv, lane).len() ==> interval_ticks(c, iv, lane)[i].y
                < interval_ticks(c, iv, lane)[j].y,
{
    let k = step_at(c, iv.y as int);
    lemma_step_at_pos(c, iv.y as int);
    let y0 = first_quant(iv.y as int, k);
    let end = iv.y + iv.l;
    assert(iv.y < y0 <= iv.y + k) by {
        let t = iv.y + k;
        assert(0 <= t % k < k) by (nonlinear_arith)
            requires
                0 < k,
        ;
    }
    lemma_hold_walk_const_step(c, lane, end, y0, k);
    let w = interval_ticks(c, iv, lane);
    assert(w == hold_walk_ticks(c, lane, end, y0, k));
    assert forall|i: int| 0 <= i < w.len() implies iv.y < (#[trigger] w[i]).y && w[i].y + step_at(
        c,
        w[i].y as int,
    ) <= iv.y + iv.l by {
        assert(w[i].y == y0 + i * k);
        assert(0 <= i * k) by (nonlinear_arith)
            requires
                0 <= i,
                0 < k,
        ;
        assert(step_at(c, w[i].y as int) == k);
    }
    assert forall|i: int, j: int| 0 <= i < j < w.len() implies w[i].y < w[j].y by {
        assert(w[i].y == y0 + i * k);
        assert(w[j].y == y0 + j * k);
        assert(i * k < j * k) by (nonlinear_arith)
            requires
                i < j,
                0 < k,
        ;
    }
}

/// Over a constant-tempo-class region, consecutive hold ticks are spaced
/// exactly one quantization step apart.
pub proof fn lemma_hold_tick_spacing(c: Chart, iv: Interval, lane: usize)
    requires
        c.beat.wf(),
        iv.fits(),
        iv.l > 0,
        forall|t: int| iv.y <= t <= iv.y + iv.l ==> #[trigger] step_at(c, t) == step_at(c, iv.y as int),
    ensures
        forall|i: int|
            0 <= i < interval_ticks(c, iv, lane).len() - 1 ==> (
            #[trigger] interval_ticks(c, iv, lane)[i + 1]).y - interval_ticks(c, iv, lane)[i].y
                == step_at(c, iv.y as int),
{
    let k = step_at(c, iv.y as int);
    lemma_step_at_pos(c, iv.y as int);
    let y0 = first_quant(iv.y as int, k);
    let end = iv.y + iv.l;
    assert(iv.y < y0) by {
        let t = iv.y + k;
        assert(0 <= t % k < k) by (nonlinear_arith)
            requires
                0 < k,
        ;
    }
    lemma_hold_walk_const_step(c, lane, end, y0, k);
    let w = interval_ticks(c, iv, lane);
    assert(w == hold_walk_ticks(c, lane, end, y0, k));
    assert forall|i: int| 0 <= i < w.len() - 1 implies (#[trigger] w[i + 1]).y - w[i].y == k by {
        assert(w[i].y == y0 + i * k);
        assert(w[i + 1].y == y0 + (i + 1) * k);
        assert((i + 1) * k == i * k + k) by (nonlinear_arith);
    }
}

/// Every position a constant-step laser walk visits, when the walk starts
/// past the previously emitted tick: no candidate is suppressed, the `i`-th
/// tick lies at `y + i * k`, and each leaves a full step before `end`.
pub proof fn lemma_laser_walk_const_step(
    c: Chart,
    sec: LaserSection,
    lane: usize,
    end: int,
    y: int,
    k: int,
    last: Option<int>,
)
    requires
        0 < k,
        0 <= y,
        end <= u32::MAX,
        forall|t: int| y <= t <= end ==> step_at(c, t) == k,
        match last {
            Some(p) => p < y,
            None => true,
        },
    ensures
        forall|i: int|
            0 <= i < laser_walk_ticks(c, sec, lane, end, y, k, last).len() ==> (
            #[trigger] laser_walk_ticks(c, sec, lane, end, y, k, last)[i]).y == y + i * k && y + i
                * k + k <= end,
    decreases end - y,
{
    if y + k <= end {
        let w = laser_walk_ticks(c, sec, lane, end, y, k, last);
        assert(step_at(c, y) == k);
        assert(last != Some(y));
        lemma_laser_walk_const_step(c, sec, lane, end, y + k, k, Some(y));
        let w2 = laser_walk_ticks(c, sec, lane, end, y + k, k, Some(y));
        assert forall|i: int| 0 <= i < w.len() implies (#[trigger] w[i]).y == y + i * k && y + i
            * k + k <= end by {
            if i == 0 {
                assert(w[0].y == y as u32);
            } else {
                if y + 2 * k <= end {
                    assert(w[i] == w2[i - 1]);
                    assert(w2[i - 1].y == (y + k) + (i - 1) * k);
                    assert((y + k) + (i - 1) * k == y + i * k) by (nonlinear_arith);
                } else {
                    assert(w.len() == 1);
                }
            }
        }
    }
}

/// One segment's contribution to a laser section's score ticks. The output
/// from segment `i` on decomposes into the earlier control point's slam tick
/// (when it has one), the segment's quantized walk, and the remaining
/// segments. Over a constant tempo class, with the walk starting past the
/// previously emitted tick, the walk suppresses nothing and its consecutive
/// ticks are spaced exactly one quantization step apart -- the same
/// tempo-sensitive quantization as hold ticks.
pub proof fn lemma_laser_section_segment_spacing(
    c: Chart,
    sec: LaserSection,
    lane: usize,
    i: int,
    last: Option<int>,
)
    requires
        c.beat.wf(),
        sec.wf(),
        0 <= i,
        i + 1 < sec.v@.len(),
        ({
            let s = sec.v@[i];
            let e = sec.v@[i + 1];
            let y0 = sec.y + s.ry;
            let step0 = step_at(c, y0);
            let y1 = if s.vf is Some || i == 0 {
                y0 + step0
            } else {
                y0
            };
            let y2 = y1 - y1 % step0;
            let last1 = if s.vf is Some {
                Some(y0)
            } else {
                last
            };
            &&& forall|t: int| y2 <= t <= sec.y + e.ry ==> #[trigger] step_at(c, t) == step0
            &&& match last1 {
                Some(p) => p < y2,
                None => true,
            }
        }),
    ensures
        ({
            let s = sec.v@[i];
            let e = sec.v@[i + 1];
            let y0 = sec.y + s.ry;
            let step0 = step_at(c, y0);
            let y1 = if s.vf is Some || i == 0 {
                y0 + step0
            } else {
                y0
            };
            let y2 = y1 - y1 % step0;
            let last1 = if s.vf is Some {
                Some(y0)
            } else {
                last
            };
            let slam = match slam_of(s, lane, sec.y as int) {
                Some(t) => seq![t],
                None => Seq::<PlacedScoreTick>::empty(),
            };
            let inner = laser_walk_ticks(c, sec, lane, sec.y + e.ry, y2, step0, last1);
            &&& laser_segment_ticks(c, sec, lane, i, last) == slam + inner + laser_segment_ticks(
                c,
                sec,
                lane,
                i + 1,
                last_tick_pos(inner, last1),
            )
            &&& forall|k: int|
                0 <= k < inner.len() - 1 ==> (#[trigger] inner[k + 1]).y - inner[k].y == step0
        }),
{
    let s = sec.v@[i];
    let e = sec.v@[i + 1];
    let y0 = sec.y + s.ry;
    let step0 = step_at(c, y0);
    let y1 = if s.vf is Some || i == 0 {
        y0 + step0
    } else {
        y0
    };
    let y2 = y1 - y1 % step0;
    let last1 = if s.vf is Some {
        Some(y0)
    } else {
        last
    };
    lemma_step_at_pos(c, y0);
    assert(0 <= y1 % step0 <= y1) by (nonlinear_arith)
        requires
            0 < step0,
            0 <= y1,
    ;
    assert(sec.y + e.ry <= u32::MAX);
    lemma_laser_walk_spacing(c, sec, lane, sec.y + e.ry, y2, step0, last1);
}

/// Over a constant-tempo-class region, consecutive laser ticks of one
/// quantized walk are spaced exactly one quantization step apart.
pub proof fn lemma_laser_walk_spacing(
    c: Chart,
    sec: LaserSection,
    lane: usize,
    end: int,
    y: int,
    k: int,
    last: Option<int>,
)
    requires
        0 < k,
        0 <= y,
        end <= u32::MAX,
        forall|t: int| y <= t <= end ==> step_at(c, t) == k,
        match last {
            Some(p) => p < y,
            None => true,
        },
    ensures
        forall|i: int|
            0 <= i < laser_walk_ticks(c, sec, lane, end, y, k, last).len() - 1 ==> (
            #[trigger] laser_walk_ticks(c, sec, lane, end, y, k, last)[i + 1]).y
                - laser_walk_ticks(c, sec, lane, end, y, k, last)[i].y == k,
{
    lemma_laser_walk_const_step(c, sec, lane, end, y, k, last);
    let w = laser_walk_ticks(c, sec, lane, end, y, k, last);
    assert forall|i: int| 0 <= i < w.len() - 1 implies (#[trigger] w[i + 1]).y - w[i].y == k by {
        assert(w[i].y == y + i * k);
        assert(w[i + 1].y == y + (i + 1) * k);
        assert((i + 1) * k == i * k + k) by (nonlinear_arith);
    }
}

} // verus!
