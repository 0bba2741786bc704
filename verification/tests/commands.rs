use ffxiv_market_overlay::cache::PriceCache;
use ffxiv_market_overlay::catalog::CatalogInfo;
use ffxiv_market_overlay::commands::{
    cached_price, hotkey_unchanged, next_board_scope, progress_payload, settings_from,
    stale_region_boards, BoardView, SYNC_PROGRESS_EVENT,
};
use ffxiv_market_overlay::config::{AppConfig, BoardConfig, ConfigStore, MAX_BOARDS};
use ffxiv_market_overlay::universalis::{DataCenter, MarketScopes, World};
use ffxiv_market_overlay::xivapi_sync::SyncProgress;

fn scopes() -> MarketScopes {
    MarketScopes {
        worlds: vec![
            World { id: 79, name: "Cactuar".into() },
            World { id: 54, name: "Faerie".into() },
            World { id: 39, name: "Ravana".into() },
        ],
        data_centers: vec![
            DataCenter { name: "Aether".into(), region: "North-America".into(), worlds: vec![79, 54] },
            DataCenter { name: "Primal".into(), region: "North-America".into(), worlds: vec![] },
            DataCenter { name: "Elemental".into(), region: "Japan".into(), worlds: vec![39] },
        ],
    }
}

fn config_with(scopes: &[Option<&str>]) -> AppConfig {
    let mut config = AppConfig::default();
    config.boards = scopes
        .iter()
        .enumerate()
        .map(|(i, s)| BoardConfig { id: format!("board-{}", i + 1), scope: s.map(|x| x.to_string()) })
        .collect();
    config
}

#[test]
fn hotkey_error_round_trips_into_settings() {
    let store = ConfigStore::new(AppConfig::default());
    let settings = settings_from(store.get(), CatalogInfo::default(), true, None);
    assert_eq!(settings.hotkey_error, None);
    let settings =
        settings_from(store.get(), CatalogInfo::default(), true, Some("already in use".into()));
    assert_eq!(settings.hotkey_error.as_deref(), Some("already in use"));
}

#[test]
fn settings_mirror_the_config() {
    let mut config = config_with(&[Some("Cactuar"), None]);
    config.recent_item_ids = vec![3, 2];
    config.favorite_item_ids = vec![7];
    let catalog = CatalogInfo {
        total_items: 3,
        marketable_items: 2,
        last_synced_at: Some("1700000000000".into()),
        last_synced_game_version: None,
    };
    let settings = settings_from(config, catalog.clone(), false, None);
    assert_eq!(
        settings.boards,
        vec![
            BoardView { id: "board-1".into(), scope: Some("Cactuar".into()) },
            BoardView { id: "board-2".into(), scope: None },
        ]
    );
    assert!(settings.can_add_board);
    assert_eq!(settings.hotkey, "CmdOrControl+Shift+M");
    assert_eq!(settings.recent_item_ids, vec![3, 2]);
    assert_eq!(settings.favorite_item_ids, vec![7]);
    assert_eq!(settings.catalog, catalog);
    assert!(!settings.catalog_ready);
}

#[test]
fn a_full_strip_cannot_grow() {
    let boards = vec![Some("Cactuar"); MAX_BOARDS];
    let settings = settings_from(config_with(&boards), CatalogInfo::default(), true, None);
    assert!(!settings.can_add_board);
}

#[test]
fn a_new_board_opens_one_level_out() {
    let scopes = scopes();
    assert_eq!(next_board_scope(&config_with(&[Some("Cactuar")]), Some(&scopes)).as_deref(), Some("Aether"));
    assert_eq!(
        next_board_scope(&config_with(&[Some("Ravana"), Some("Aether")]), Some(&scopes)).as_deref(),
        Some("North-America")
    );
}

#[test]
fn a_new_board_copies_its_neighbour_when_it_cannot_widen() {
    let scopes = scopes();
    assert_eq!(
        next_board_scope(&config_with(&[Some("North-America")]), Some(&scopes)).as_deref(),
        Some("North-America")
    );
    assert_eq!(next_board_scope(&config_with(&[Some("Cactuar")]), None).as_deref(), Some("Cactuar"));
    assert_eq!(next_board_scope(&config_with(&[None]), Some(&scopes)), None);
}

#[test]
fn saved_regions_are_retargeted_to_their_first_data_center() {
    let config = config_with(&[Some("North-America"), Some("Cactuar"), None, Some(" japan ")]);
    assert_eq!(
        stale_region_boards(&config, &scopes()),
        vec![
            ("board-1".to_string(), "Aether".to_string()),
            ("board-4".to_string(), "Elemental".to_string()),
        ]
    );
    assert!(stale_region_boards(&config_with(&[Some("Aether")]), &scopes()).is_empty());
}

#[test]
fn re_applying_the_working_hotkey_is_a_no_op() {
    assert!(hotkey_unchanged("Alt+M", "  Alt+M ", &None));
    assert!(!hotkey_unchanged("Alt+M", "Alt+M", &Some("already in use".into())));
    assert!(!hotkey_unchanged("Alt+M", "Alt+N", &None));
}

#[test]
fn a_refresh_skips_and_drops_the_cached_price() {
    let mut cache: PriceCache<u32> = PriceCache::new(1_000);
    cache.insert(1, "Cactuar", 250, 0);
    assert_eq!(cached_price(&mut cache, 1, "cactuar", false, 10), Some(250));
    assert_eq!(cached_price(&mut cache, 1, "Cactuar", false, 5_000), None, "stale");
    assert_eq!(cache.len(), 1, "a stale entry is kept for peeking");
    assert_eq!(cached_price(&mut cache, 1, "Cactuar", true, 10), None);
    assert!(cache.is_empty());
}

#[test]
fn progress_ticks_name_their_stage() {
    assert_eq!(SYNC_PROGRESS_EVENT, "catalog-sync-progress");
    let tick = progress_payload(SyncProgress::FetchedItems(500));
    assert_eq!((tick.stage, tick.count), ("items", 500));
    let tick = progress_payload(SyncProgress::FetchedMarketable(17));
    assert_eq!((tick.stage, tick.count), ("marketable", 17));
    let tick = progress_payload(SyncProgress::Wrote(3));
    assert_eq!((tick.stage, tick.count), ("wrote", 3));
}
