use chart_timeline::config::GameConfig;
use chart_timeline::play::{AutoPlay, HitWindow};
use chart_timeline::song_provider::{ScoreFilter, SongFilter, SongSort, SortDir};

#[test]
fn default_config_points_at_main_cfg() {
    let config = GameConfig::default();
    assert_eq!(config.config_file, vec![".".to_owned(), "Main.cfg".to_owned()]);
    assert_eq!(config.songs_path, vec![".".to_owned(), "songs".to_owned()]);
    assert_eq!(config.skin, "Default");
}

#[test]
fn skin_config_path_sits_beside_config_file() {
    let config = GameConfig::default();
    assert_eq!(
        config.skin_config_path(),
        vec![
            ".".to_owned(),
            "skins".to_owned(),
            "Default".to_owned(),
            "skin_config.cfg".to_owned(),
        ],
    );
}

#[test]
fn skin_config_path_of_rootless_config_file() {
    let mut config = GameConfig::default();
    config.config_file = Vec::new();
    config.skin = "Fancy".to_owned();
    assert_eq!(
        config.skin_config_path(),
        vec!["skins".to_owned(), "Fancy".to_owned(), "skin_config.cfg".to_owned()],
    );
}

#[test]
fn config_slot_reads_back_when_initialized() {
    let slot: Option<GameConfig> = None;
    assert!(GameConfig::get(&slot).is_none());
    let slot = Some(GameConfig::default());
    let read = GameConfig::get(&slot).expect("initialized slot");
    assert_eq!(read.skin, "Default");
}

#[test]
fn config_slot_writes_back_through_get_mut() {
    let mut slot: Option<GameConfig> = None;
    assert!(GameConfig::get_mut(&mut slot).is_none());
    let mut slot = Some(GameConfig::default());
    if let Some(config) = GameConfig::get_mut(&mut slot) {
        config.skin = "Fancy".to_owned();
    }
    assert_eq!(slot.expect("still initialized").skin, "Fancy");
}

#[test]
fn play_option_types_compare_by_value() {
    assert_eq!(HitWindow::default(), HitWindow {
        variant: 0,
        perfect: 0,
        good: 0,
        hold: 0,
        miss: 0,
    });
    assert_ne!(AutoPlay::Off, AutoPlay::All);
    assert_eq!(SongSort::Title(SortDir::Asc), SongSort::Title(SortDir::Asc));
    assert_ne!(ScoreFilter::Local, ScoreFilter::Online);
    assert_eq!(SongFilter::Level(7), SongFilter::Level(7));
}
