use chart_timeline::chart::{
    BeatInfo, BpmChange, Chart, GraphSectionPoint, Interval, LaserSection, NoteData, LASER_MAX,
};
use chart_timeline::effects::AudioInfo;
use chart_timeline::score_ticks::{
    generate_score_ticks, get_hold_step_at, get_if_slam, ticks_from_interval,
    ticks_from_laser_section, PlacedScoreTick, ScoreTick, ScoreTicker,
};

fn empty_chart(resolution: u32, bpm_milli: u32) -> Chart {
    Chart {
        note: NoteData {
            bt: [Vec::new(), Vec::new(), Vec::new(), Vec::new()],
            fx: [Vec::new(), Vec::new()],
            laser: [Vec::new(), Vec::new()],
        },
        beat: BeatInfo {
            bpm: vec![BpmChange { y: 0, bpm: bpm_milli }],
            resolution,
        },
        audio: AudioInfo { audio_effect: None },
    }
}

fn tick_positions(ticks: &[PlacedScoreTick]) -> Vec<u32> {
    ticks.iter().map(|t| t.y).collect()
}

#[test]
fn chip_interval_yields_single_chip() {
    let chart = empty_chart(192, 120_000);
    let ticks = ticks_from_interval(&Interval { y: 37, l: 0 }, 2, &chart);
    assert_eq!(ticks.len(), 1);
    assert_eq!(ticks[0].y, 37);
    assert!(matches!(ticks[0].tick, ScoreTick::Chip { lane: 2 }));
}

#[test]
fn hold_quantization_low_bpm() {
    // A hold over [0, 192) at resolution 192 and 120 BPM: step 48, so ticks
    // at 48, 96 and 144 -- not at 0 (the start is excluded) and not at 192
    // or 191 (the sub-step tail is excluded).
    let chart = empty_chart(192, 120_000);
    let ticks = ticks_from_interval(&Interval { y: 0, l: 192 }, 0, &chart);
    assert_eq!(tick_positions(&ticks), vec![48, 96, 144]);
    for t in &ticks {
        assert!(matches!(t.tick, ScoreTick::Hold { lane: 0 }));
    }
}

#[test]
fn hold_ticks_stay_inside_interval() {
    let chart = empty_chart(192, 120_000);
    let iv = Interval { y: 10, l: 200 };
    let ticks = ticks_from_interval(&iv, 1, &chart);
    // 192 is excluded: it would leave less than one step before tick 210.
    assert_eq!(tick_positions(&ticks), vec![48, 96, 144]);
    let step = get_hold_step_at(iv.y, &chart);
    let mut prev = iv.y;
    for t in &ticks {
        assert!(iv.y < t.y);
        assert!(t.y + step <= iv.y + iv.l);
        assert!(t.y > prev || prev == iv.y);
        prev = t.y;
    }
}

#[test]
fn hold_shorter_than_step_yields_no_ticks() {
    let chart = empty_chart(192, 120_000);
    let ticks = ticks_from_interval(&Interval { y: 0, l: 40 }, 0, &chart);
    assert!(ticks.is_empty());
}

#[test]
fn quantization_step_halves_above_high_bpm() {
    let slow = empty_chart(192, 255_000);
    assert_eq!(get_hold_step_at(0, &slow), 48);
    let fast = empty_chart(192, 255_001);
    assert_eq!(get_hold_step_at(0, &fast), 96);
}

#[test]
fn hold_spacing_matches_step_per_tempo_class() {
    let slow = empty_chart(192, 120_000);
    let ticks = ticks_from_interval(&Interval { y: 0, l: 384 }, 0, &slow);
    for w in tick_positions(&ticks).windows(2) {
        assert_eq!(w[1] - w[0], 48);
    }
    let fast = empty_chart(192, 300_000);
    let ticks = ticks_from_interval(&Interval { y: 0, l: 384 }, 0, &fast);
    assert_eq!(tick_positions(&ticks), vec![96, 192, 288]);
    for w in tick_positions(&ticks).windows(2) {
        assert_eq!(w[1] - w[0], 96);
    }
}

#[test]
fn bpm_change_mid_hold_changes_step() {
    // 120 BPM up to tick 96, 300 BPM from there on: the step is re-read at
    // each emitted position.
    let mut chart = empty_chart(192, 120_000);
    chart.beat.bpm.push(BpmChange { y: 96, bpm: 300_000 });
    assert_eq!(chart.bpm_at_tick(95), 120_000);
    assert_eq!(chart.bpm_at_tick(96), 300_000);
    let ticks = ticks_from_interval(&Interval { y: 0, l: 384 }, 0, &chart);
    // 48 (step 48), 96 (step becomes 96), 192, 288; 384 leaves no room.
    assert_eq!(tick_positions(&ticks), vec![48, 96, 192, 288]);
}

#[test]
fn slam_detected_from_point_with_target() {
    let p = GraphSectionPoint { ry: 100, v: LASER_MAX, vf: Some(0) };
    let t = get_if_slam(Some(&p), 1, 50).expect("slam expected");
    assert_eq!(t.y, 150);
    assert!(matches!(
        t.tick,
        ScoreTick::Slam { lane: 1, start, end } if start == LASER_MAX && end == 0
    ));
    assert!(get_if_slam(Some(&GraphSectionPoint { ry: 0, v: 5, vf: None }), 1, 50).is_none());
    assert!(get_if_slam(None, 1, 50).is_none());
}

#[test]
fn laser_section_with_trailing_slam() {
    // Points {ry:0, v:0.0} and {ry:100, v:1.0, vf:0.0}: one laser tick
    // series between 0 and 100, then exactly one slam at ry 100, detected as
    // the trailing-point case.
    let chart = empty_chart(192, 120_000);
    let section = LaserSection {
        y: 0,
        v: vec![
            GraphSectionPoint { ry: 0, v: 0, vf: None },
            GraphSectionPoint { ry: 100, v: LASER_MAX, vf: Some(0) },
        ],
    };
    let ticks = ticks_from_laser_section(&section, 0, &chart);
    assert_eq!(ticks.len(), 2);
    assert_eq!(ticks[0].y, 48);
    assert!(matches!(
        ticks[0].tick,
        ScoreTick::Laser { lane: 0, pos } if pos == 480_000
    ));
    assert_eq!(ticks[1].y, 100);
    assert!(matches!(
        ticks[1].tick,
        ScoreTick::Slam { lane: 0, start, end } if start == LASER_MAX && end == 0
    ));
}

#[test]
fn laser_slam_at_section_start_emitted_once() {
    let chart = empty_chart(192, 120_000);
    let section = LaserSection {
        y: 0,
        v: vec![
            GraphSectionPoint { ry: 0, v: 0, vf: Some(LASER_MAX) },
            GraphSectionPoint { ry: 96, v: LASER_MAX, vf: None },
        ],
    };
    let ticks = ticks_from_laser_section(&section, 1, &chart);
    assert_eq!(ticks.len(), 2);
    assert_eq!(ticks[0].y, 0);
    assert!(matches!(
        ticks[0].tick,
        ScoreTick::Slam { lane: 1, start, end } if start == 0 && end == LASER_MAX
    ));
    // The curve continues from the slam target, so the tick at 48 reads the
    // interpolated value between vf and the next point's value.
    assert_eq!(ticks[1].y, 48);
    assert!(matches!(
        ticks[1].tick,
        ScoreTick::Laser { lane: 1, pos } if pos == LASER_MAX
    ));
}

#[test]
fn laser_curve_value_interpolates() {
    let section = LaserSection {
        y: 10,
        v: vec![
            GraphSectionPoint { ry: 0, v: 200_000, vf: None },
            GraphSectionPoint { ry: 100, v: 700_000, vf: None },
        ],
    };
    assert_eq!(section.value_at(10), Some(200_000));
    assert_eq!(section.value_at(60), Some(450_000));
    assert_eq!(section.value_at(110), Some(700_000));
    assert_eq!(section.value_at(9), None);
    assert_eq!(section.value_at(111), None);
}

fn mixed_chart() -> Chart {
    let mut chart = empty_chart(192, 120_000);
    chart.note.bt[0].push(Interval { y: 0, l: 0 });
    chart.note.bt[1].push(Interval { y: 48, l: 0 });
    chart.note.bt[2].push(Interval { y: 0, l: 192 });
    chart.note.fx[0].push(Interval { y: 96, l: 0 });
    chart.note.laser[1].push(LaserSection {
        y: 0,
        v: vec![
            GraphSectionPoint { ry: 0, v: 0, vf: None },
            GraphSectionPoint { ry: 100, v: LASER_MAX, vf: Some(0) },
        ],
    });
    chart
}

#[test]
fn generated_timeline_is_sorted_and_counted() {
    let chart = mixed_chart();
    let ticks = generate_score_ticks(&chart);
    for w in ticks.windows(2) {
        assert!(w[0].y <= w[1].y);
    }
    let summary = ticks.summary();
    assert_eq!(summary.chip_count, 3);
    assert_eq!(summary.hold_count, 3); // hold over [0, 192): 48, 96, 144
    assert_eq!(summary.laser_count, 1); // laser tick at 48
    assert_eq!(summary.slam_count, 1); // trailing slam at 100
    assert_eq!(
        summary.total,
        summary.chip_count + summary.hold_count + summary.laser_count + summary.slam_count
    );
    assert_eq!(summary.total as usize, ticks.len());
}

#[test]
fn compiling_twice_yields_equal_timelines() {
    let chart = mixed_chart();
    let first = generate_score_ticks(&chart);
    let second = generate_score_ticks(&chart);
    assert_eq!(first, second);
}

#[test]
fn equal_tick_positions_keep_generation_order() {
    // A chip on a button lane and a chip on an FX lane at the same tick:
    // the stable sort keeps the button-lane pass's tick first. Callers must
    // not rely on this order; this test only documents it.
    let mut chart = empty_chart(192, 120_000);
    chart.note.bt[3].push(Interval { y: 10, l: 0 });
    chart.note.fx[0].push(Interval { y: 10, l: 0 });
    let ticks = generate_score_ticks(&chart);
    assert_eq!(ticks.len(), 2);
    assert!(matches!(ticks[0].tick, ScoreTick::Chip { lane: 3 }));
    assert!(matches!(ticks[1].tick, ScoreTick::Chip { lane: 0 }));
}

#[test]
fn combo_counts_ticks_up_to_position() {
    let chart = mixed_chart();
    let ticks = generate_score_ticks(&chart);
    // Positions: 0 (chip), 48 (chip, hold, laser), 96 (chip, hold), 144
    // (hold), 100 (slam) -- sorted: 0, 48, 48, 48, 96, 96, 100, 144.
    assert_eq!(ticks.get_combo_at(0), 1);
    assert_eq!(ticks.get_combo_at(1), 1);
    assert_eq!(ticks.get_combo_at(47), 1);
    assert_eq!(ticks.get_combo_at(48), 4); // the tick before 48, plus all three at 48
    assert_eq!(ticks.get_combo_at(99), 6);
    assert_eq!(ticks.get_combo_at(100), 7);
    assert_eq!(ticks.get_combo_at(144), 8);
    assert_eq!(ticks.get_combo_at(144), ticks.summary().total);
    assert_eq!(ticks.get_combo_at(100_000), 8);
}

#[test]
fn combo_is_monotonic() {
    let chart = mixed_chart();
    let ticks = generate_score_ticks(&chart);
    let mut prev = 0;
    for y in 0..200 {
        let combo = ticks.get_combo_at(y);
        assert!(combo >= prev);
        prev = combo;
    }
}

#[test]
fn laser_segment_join_suppresses_duplicate_tick() {
    // The second segment starts at 145 while the tempo there is fast (step
    // 96), so its first candidate rounds down to 96 -- exactly the previous
    // segment's last tick. That candidate is suppressed and the walk moves
    // on, re-reading the step at each position.
    let mut chart = empty_chart(192, 120_000);
    chart.beat.bpm.push(BpmChange { y: 100, bpm: 300_000 });
    let section = LaserSection {
        y: 0,
        v: vec![
            GraphSectionPoint { ry: 0, v: 0, vf: None },
            GraphSectionPoint { ry: 145, v: 145_000, vf: None },
            GraphSectionPoint { ry: 300, v: 145_000, vf: None },
        ],
    };
    let ticks = ticks_from_laser_section(&section, 0, &chart);
    let expected = [(48, 48_000), (96, 96_000), (144, 144_000)];
    assert_eq!(ticks.len(), expected.len());
    for (t, (y, pos)) in ticks.iter().zip(expected.iter()) {
        assert_eq!(t.y, *y);
        assert!(matches!(t.tick, ScoreTick::Laser { lane: 0, pos: p } if p == *pos));
    }
}

#[test]
fn combo_at_shared_final_position_counts_all_ticks_there() {
    // Two ticks share the final position: the combo there is the total tick
    // count, both ticks at that position included.
    let mut chart = empty_chart(192, 120_000);
    chart.note.bt[0].push(Interval { y: 10, l: 0 });
    chart.note.bt[1].push(Interval { y: 10, l: 0 });
    let ticks = generate_score_ticks(&chart);
    assert_eq!(ticks.len(), 2);
    assert_eq!(ticks.get_combo_at(9), 0);
    assert_eq!(ticks.get_combo_at(10), 2);
    assert_eq!(ticks.get_combo_at(10), ticks.summary().total);
    assert_eq!(ticks.get_combo_at(11), 2);
}

#[test]
fn odd_resolution_still_quantizes() {
    // Resolution 190: the step truncates to 47 and the first boundary after
    // tick 0 is 47.
    let chart = empty_chart(190, 120_000);
    assert_eq!(get_hold_step_at(0, &chart), 47);
    let ticks = ticks_from_interval(&Interval { y: 0, l: 190 }, 0, &chart);
    assert_eq!(tick_positions(&ticks), vec![47, 94, 141]);
}

#[test]
fn laser_value_after_mid_section_slam_reads_target() {
    let section = LaserSection {
        y: 0,
        v: vec![
            GraphSectionPoint { ry: 0, v: 0, vf: None },
            GraphSectionPoint { ry: 100, v: LASER_MAX, vf: Some(0) },
            GraphSectionPoint { ry: 200, v: 100_000, vf: None },
        ],
    };
    // Before the slam the curve rises towards the second point's entry
    // value; from the slam on it continues from the slam target.
    assert_eq!(section.value_at(50), Some(500_000));
    assert_eq!(section.value_at(100), Some(0));
    assert_eq!(section.value_at(150), Some(50_000));
}

#[test]
fn summary_of_empty_timeline_is_zero() {
    let ticks: Vec<PlacedScoreTick> = Vec::new();
    let summary = ticks.summary();
    assert_eq!(summary.total, 0);
    assert_eq!(summary.chip_count, 0);
    assert_eq!(ticks.get_combo_at(0), 0);
}
