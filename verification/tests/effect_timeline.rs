use chart_timeline::chart::{
    BeatInfo, BpmChange, Chart, GraphSectionPoint, Interval, LaserSection, NoteData,
};
use chart_timeline::effects::{
    resolve, AudioEffect, AudioEffectInfo, AudioInfo, BitCrusher, FxEffectBank, FxLongEvent,
    LaserEffectBank, ParamChange, ReTrigger, Side, Track, Wobble,
};

fn bit_crusher(reduction: &str, mix: &str) -> AudioEffect {
    AudioEffect::BitCrusher(BitCrusher { reduction: reduction.to_owned(), mix: mix.to_owned() })
}

fn wobble() -> AudioEffect {
    AudioEffect::Wobble(Wobble {
        wave_length: "1/12".to_owned(),
        lo_freq: "80".to_owned(),
        hi_freq: "8000".to_owned(),
        q: "1.4".to_owned(),
        mix: "80%".to_owned(),
    })
}

fn empty_bank() -> AudioEffectInfo {
    AudioEffectInfo {
        fx: FxEffectBank { def: Vec::new(), param_change: Vec::new(), long_event: Vec::new() },
        laser: LaserEffectBank {
            def: Vec::new(),
            param_change: Vec::new(),
            pulse_event: Vec::new(),
        },
    }
}

fn chart_with(bank: Option<AudioEffectInfo>) -> Chart {
    Chart {
        note: NoteData {
            bt: [Vec::new(), Vec::new(), Vec::new(), Vec::new()],
            fx: [Vec::new(), Vec::new()],
            laser: [Vec::new(), Vec::new()],
        },
        beat: BeatInfo { bpm: vec![BpmChange { y: 0, bpm: 120_000 }], resolution: 192 },
        audio: AudioInfo { audio_effect: bank },
    }
}

fn change(y: u32, key: &str, v: &str) -> ParamChange {
    ParamChange { y, key: key.to_owned(), v: v.to_owned() }
}

#[test]
fn derive_overrides_named_parameter() {
    let e = ReTrigger {
        update_period: "1/2".to_owned(),
        wave_length: "1/8".to_owned(),
        rate: "70%".to_owned(),
        update_trigger: "off".to_owned(),
        mix: "90%".to_owned(),
    };
    let d = e.derive("wave_length", &"1/16".to_owned());
    assert_eq!(d.wave_length, "1/16");
    assert_eq!(d.update_period, "1/2");
    assert_eq!(d.rate, "70%");
}

#[test]
fn derive_unknown_key_is_noop() {
    let e = bit_crusher("4", "100%");
    let d = e.derive("no_such_parameter", &"1".to_owned());
    assert_eq!(d, e);
}

#[test]
fn derive_on_audio_swap_replaces_value() {
    let e = AudioEffect::AudioSwap("clip_a".to_owned());
    let d = e.derive("anything", &"clip_b".to_owned());
    assert_eq!(d, AudioEffect::AudioSwap("clip_b".to_owned()));
}

#[test]
fn resolve_applies_changes_in_order_last_wins() {
    let root = bit_crusher("4", "100%");
    let changes = vec![change(0, "reduction", "8"), change(50, "reduction", "16")];
    let at60 = resolve(&root, &changes, 60);
    assert_eq!(at60, bit_crusher("16", "100%"));
    let at50 = resolve(&root, &changes, 50);
    assert_eq!(at50, bit_crusher("16", "100%"));
    let at49 = resolve(&root, &changes, 49);
    assert_eq!(at49, bit_crusher("8", "100%"));
    let at0 = resolve(&root, &changes, 0);
    assert_eq!(at0, bit_crusher("8", "100%"));
}

#[test]
fn resolve_is_causal() {
    // Two schedules that agree at or before the query tick resolve equally,
    // however they differ afterwards.
    let root = bit_crusher("4", "100%");
    let without_tail = vec![change(0, "mix", "80%")];
    let with_tail = vec![change(0, "mix", "80%"), change(500, "mix", "0%")];
    assert_eq!(resolve(&root, &without_tail, 100), resolve(&root, &with_tail, 100));
    assert_eq!(resolve(&root, &with_tail, 100), bit_crusher("4", "80%"));
}

#[test]
fn fx_long_event_resolves_and_overrides() {
    let mut bank = empty_bank();
    bank.fx.def.push(("lofi".to_owned(), bit_crusher("4", "100%")));
    bank.fx.param_change.push((
        "lofi".to_owned(),
        vec![change(0, "reduction", "8"), change(200, "reduction", "16")],
    ));
    bank.fx.long_event.push((
        "lofi".to_owned(),
        [
            vec![
                FxLongEvent {
                    y: 100,
                    params: Some(vec![("mix".to_owned(), "50%".to_owned())]),
                },
                FxLongEvent { y: 999, params: None },
            ],
            Vec::new(),
        ],
    ));
    let mut chart = chart_with(Some(bank));
    chart.note.fx[0].push(Interval { y: 100, l: 50 });
    let tracks = chart.get_effect_tracks();
    // The event at 999 matches no note and is dropped silently.
    assert_eq!(tracks.len(), 1);
    assert_eq!(tracks[0].interval, Interval { y: 100, l: 50 });
    // The change at 200 lies after the event and is not applied; the
    // per-event override wins over the scheduled change's value for `mix`.
    assert_eq!(tracks[0].effect, bit_crusher("8", "50%"));
    assert_eq!(tracks[0].track, Some(Track::FX(Side::Left)));
    assert!(tracks[0].dom);
}

#[test]
fn laser_section_takes_most_recent_pulse() {
    let mut bank = empty_bank();
    bank.laser.def.push(("wob".to_owned(), wobble()));
    bank.laser.pulse_event.push(("wob".to_owned(), vec![10, 40, 70]));
    let mut chart = chart_with(Some(bank));
    chart.note.laser[0].push(LaserSection {
        y: 5,
        v: vec![
            GraphSectionPoint { ry: 0, v: 0, vf: None },
            GraphSectionPoint { ry: 30, v: 500_000, vf: None },
        ],
    });
    chart.note.laser[0].push(LaserSection {
        y: 50,
        v: vec![
            GraphSectionPoint { ry: 0, v: 0, vf: None },
            GraphSectionPoint { ry: 60, v: 500_000, vf: None },
        ],
    });
    let tracks = chart.get_effect_tracks();
    // The section at 5 precedes every pulse activation and is skipped; the
    // section at 50 takes the activation at 40 (the latest at or before 50).
    assert_eq!(tracks.len(), 1);
    assert_eq!(tracks[0].interval, Interval { y: 50, l: 60 });
    assert_eq!(tracks[0].effect, wobble());
    assert_eq!(tracks[0].track, Some(Track::Laser(Side::Left)));
    assert!(tracks[0].dom);
}

#[test]
fn laser_pulse_without_definition_is_dropped() {
    let mut bank = empty_bank();
    bank.laser.pulse_event.push(("missing".to_owned(), vec![0]));
    let mut chart = chart_with(Some(bank));
    chart.note.laser[1].push(LaserSection {
        y: 10,
        v: vec![
            GraphSectionPoint { ry: 0, v: 0, vf: None },
            GraphSectionPoint { ry: 20, v: 0, vf: None },
        ],
    });
    assert!(chart.get_effect_tracks().is_empty());
}

#[test]
fn effect_intervals_are_sorted_by_start() {
    let mut bank = empty_bank();
    bank.fx.def.push(("lofi".to_owned(), bit_crusher("4", "100%")));
    bank.fx.long_event.push((
        "lofi".to_owned(),
        [
            vec![FxLongEvent { y: 300, params: None }, FxLongEvent { y: 100, params: None }],
            Vec::new(),
        ],
    ));
    bank.laser.def.push(("wob".to_owned(), wobble()));
    bank.laser.pulse_event.push(("wob".to_owned(), vec![0]));
    let mut chart = chart_with(Some(bank));
    chart.note.fx[0].push(Interval { y: 100, l: 10 });
    chart.note.fx[0].push(Interval { y: 300, l: 10 });
    chart.note.laser[0].push(LaserSection {
        y: 200,
        v: vec![
            GraphSectionPoint { ry: 0, v: 0, vf: None },
            GraphSectionPoint { ry: 10, v: 0, vf: None },
        ],
    });
    let tracks = chart.get_effect_tracks();
    let starts: Vec<u32> = tracks.iter().map(|t| t.interval.y).collect();
    assert_eq!(starts, vec![100, 200, 300]);
}

#[test]
fn chart_without_effects_compiles_to_empty_timeline() {
    let chart = chart_with(None);
    assert!(chart.get_effect_tracks().is_empty());
}

#[test]
fn compiling_effects_twice_yields_equal_timelines() {
    let mut bank = empty_bank();
    bank.fx.def.push(("lofi".to_owned(), bit_crusher("4", "100%")));
    bank.fx.long_event.push((
        "lofi".to_owned(),
        [vec![FxLongEvent { y: 0, params: None }], Vec::new()],
    ));
    let mut chart = chart_with(Some(bank));
    chart.note.fx[0].push(Interval { y: 0, l: 48 });
    let first = chart.get_effect_tracks();
    let second = chart.get_effect_tracks();
    assert_eq!(first, second);
}
