use ffxiv_market_overlay::config::{
    AppConfig, BoardConfig, ConfigStore, WindowState, DEFAULT_HOTKEY, FIRST_BOARD, MAX_BOARDS,
    MAX_FAVORITE_ITEMS, MAX_RECENT_ITEMS,
};

/// A store as the app has it when no settings file exists yet.
fn store() -> ConfigStore {
    ConfigStore::new(AppConfig::default())
}

/// The settings as the next launch reads them back.
fn reload(store: &ConfigStore) -> ConfigStore {
    ConfigStore::new(store.get())
}

fn scope_of(config: &AppConfig, id: &str) -> Option<String> {
    config.board(id).and_then(|board| board.scope.clone())
}

fn ids(config: &AppConfig) -> Vec<String> {
    config.boards.iter().map(|b| b.id.clone()).collect()
}

fn newest(config: &AppConfig) -> String {
    config.boards.last().unwrap().id.clone()
}

#[test]
fn defaults_when_no_file_exists() {
    let store = store();
    let config = store.get();
    assert_eq!(config.boards.len(), 1, "there is always a board");
    assert_eq!(scope_of(&config, FIRST_BOARD), None);
    assert_eq!(config.hotkey, DEFAULT_HOTKEY);
    assert!(config.recent_item_ids.is_empty());
}

#[test]
fn settings_survive_a_reload() {
    let mut store = store();
    store.set_board_scope(FIRST_BOARD, "Cactuar").unwrap();
    store.set_hotkey("Alt+M").unwrap();
    store
        .set_window(WindowState {
            x: 10,
            y: 20,
            width: 500,
            height: 600,
        })
        .unwrap();

    let reloaded = reload(&store).get();
    assert_eq!(scope_of(&reloaded, FIRST_BOARD).as_deref(), Some("Cactuar"));
    assert_eq!(reloaded.hotkey, "Alt+M");
    assert_eq!(
        reloaded.window,
        Some(WindowState {
            x: 10,
            y: 20,
            width: 500,
            height: 600
        })
    );
}

#[test]
fn boards_reopen_in_order_on_the_next_launch() {
    let mut store = store();
    store.set_board_scope(FIRST_BOARD, "Cactuar").unwrap();
    let second = newest(&store.add_board(Some("Aether".into())).unwrap());

    let reloaded = reload(&store).get();
    assert_eq!(
        ids(&reloaded),
        vec![FIRST_BOARD.to_string(), second.clone()]
    );
    assert_eq!(scope_of(&reloaded, FIRST_BOARD).as_deref(), Some("Cactuar"));
    assert_eq!(scope_of(&reloaded, &second).as_deref(), Some("Aether"));
}

#[test]
fn boards_hold_scopes_independently() {
    let mut store = store();
    store.set_board_scope(FIRST_BOARD, "Cactuar").unwrap();
    let second = newest(&store.add_board(Some("Aether".into())).unwrap());

    let config = store.set_board_scope(&second, "Primal").unwrap();
    assert_eq!(scope_of(&config, FIRST_BOARD).as_deref(), Some("Cactuar"));
    assert_eq!(scope_of(&config, &second).as_deref(), Some("Primal"));
}

#[test]
fn a_new_board_becomes_the_right_hand_column() {
    let mut store = store();
    let second = newest(&store.add_board(None).unwrap());
    let third = newest(&store.add_board(None).unwrap());
    assert_eq!(
        ids(&store.get()),
        vec![FIRST_BOARD.to_string(), second, third]
    );
}

#[test]
fn ids_are_reused_once_a_board_closes() {
    let mut store = store();
    let second = newest(&store.add_board(None).unwrap());
    let third = newest(&store.add_board(None).unwrap());
    assert_ne!(second, third);

    store.remove_board(&second).unwrap();
    let fourth = newest(&store.add_board(None).unwrap());
    assert_eq!(fourth, second, "the freed id comes back");
    assert_eq!(store.get().boards.len(), 3);
}

#[test]
fn the_last_board_cannot_be_closed() {
    let mut store = store();
    assert_eq!(
        store.remove_board(FIRST_BOARD).unwrap_err().kind(),
        "invalid"
    );
    assert_eq!(store.get().boards.len(), 1);
}

#[test]
fn boards_are_capped() {
    let mut store = store();
    for _ in 1..MAX_BOARDS {
        store.add_board(None).unwrap();
    }
    assert_eq!(store.get().boards.len(), MAX_BOARDS);
    assert_eq!(store.add_board(None).unwrap_err().kind(), "invalid");
}

#[test]
fn changes_to_a_missing_board_are_an_error() {
    let mut store = store();
    assert_eq!(
        store
            .set_board_scope("board-9", "Cactuar")
            .unwrap_err()
            .kind(),
        "invalid"
    );
}

#[test]
fn a_first_launch_scope_never_overwrites_a_real_choice() {
    let mut store = store();

    let config = store
        .set_guessed_board_scope(FIRST_BOARD, "Aether")
        .unwrap();
    assert_eq!(scope_of(&config, FIRST_BOARD).as_deref(), Some("Aether"));

    let config = store.set_board_scope(FIRST_BOARD, "Cactuar").unwrap();
    assert_eq!(scope_of(&config, FIRST_BOARD).as_deref(), Some("Cactuar"));

    let config = store.set_guessed_board_scope(FIRST_BOARD, "Chaos").unwrap();
    assert_eq!(scope_of(&config, FIRST_BOARD).as_deref(), Some("Cactuar"));
}

#[test]
fn blank_scope_and_hotkey_are_rejected() {
    let mut store = store();
    assert_eq!(
        store
            .set_board_scope(FIRST_BOARD, "   ")
            .unwrap_err()
            .kind(),
        "invalid"
    );
    assert_eq!(store.set_hotkey("").unwrap_err().kind(), "invalid");
}

#[test]
fn require_scope_explains_what_to_do() {
    let err = BoardConfig::new(FIRST_BOARD).require_scope().unwrap_err();
    assert!(err.to_string().contains("settings"));
}

#[test]
fn favorites_toggle_and_survive_a_reload() {
    let mut store = store();

    store.toggle_favorite(4745).unwrap();
    let config = store.toggle_favorite(5057).unwrap();
    assert_eq!(config.favorite_item_ids, vec![5057, 4745], "newest first");
    assert!(config.is_favorite(4745));

    let config = store.toggle_favorite(4745).unwrap();
    assert_eq!(config.favorite_item_ids, vec![5057]);
    assert!(!config.is_favorite(4745));

    assert_eq!(reload(&store).get().favorite_item_ids, vec![5057]);
}

#[test]
fn favorites_are_capped_without_losing_any() {
    let mut store = store();
    for id in 1..=(MAX_FAVORITE_ITEMS as u32) {
        store.toggle_favorite(id).unwrap();
    }
    assert_eq!(store.get().favorite_item_ids.len(), MAX_FAVORITE_ITEMS);

    let err = store.toggle_favorite(9999).unwrap_err();
    assert_eq!(err.kind(), "invalid");
    assert_eq!(
        store.get().favorite_item_ids.len(),
        MAX_FAVORITE_ITEMS,
        "nothing was evicted"
    );

    store.toggle_favorite(1).unwrap();
    assert!(store.toggle_favorite(9999).is_ok());
}

#[test]
fn favorites_and_recents_are_independent() {
    let mut store = store();
    store.push_recent(4745).unwrap();
    store.toggle_favorite(4745).unwrap();

    store.clear_recents().unwrap();
    let config = store.get();
    assert!(config.recent_item_ids.is_empty());
    assert!(
        config.is_favorite(4745),
        "clearing recents must not touch a hearted item"
    );
}

#[test]
fn recents_are_deduped_newest_first_and_capped() {
    let mut store = store();
    for id in 1..=(MAX_RECENT_ITEMS as u32 + 3) {
        store.push_recent(id).unwrap();
    }
    store.push_recent(2).unwrap();

    let recents = store.get().recent_item_ids;
    assert_eq!(recents.len(), MAX_RECENT_ITEMS);
    assert_eq!(recents[0], 2, "re-viewing moves an item to the front");
    assert_eq!(recents.iter().filter(|id| **id == 2).count(), 1);

    store.clear_recents().unwrap();
    assert!(store.get().recent_item_ids.is_empty());
}

fn board(id: &str, scope: Option<&str>) -> BoardConfig {
    BoardConfig { id: id.to_string(), scope: scope.map(|s| s.to_string()) }
}

#[test]
fn a_legacy_single_world_lands_on_the_first_board() {
    let mut old = AppConfig::default();
    old.legacy_scope = Some("Cactuar".to_string());
    old.hotkey = "Alt+M".to_string();
    old.recent_item_ids = vec![5, 6];
    old.window = Some(WindowState { x: 1, y: 2, width: 300, height: 400 });

    let mut store = ConfigStore::new(old);
    let config = store.get();
    assert_eq!(scope_of(&config, FIRST_BOARD).as_deref(), Some("Cactuar"));
    assert_eq!(config.window.unwrap().width, 300);
    assert_eq!(config.hotkey, "Alt+M");
    assert_eq!(config.recent_item_ids, vec![5, 6]);
    assert_eq!(config.legacy_scope, None, "the single-world field is never kept");

    let config = store.set_hotkey("Alt+N").unwrap();
    assert_eq!(config.legacy_scope, None);
}

#[test]
fn a_legacy_world_never_replaces_a_board_of_its_own() {
    let mut old = AppConfig::default();
    old.boards = vec![board("board-1", Some("Aether"))];
    old.legacy_scope = Some("Cactuar".to_string());
    let config = ConfigStore::new(old).get();
    assert_eq!(scope_of(&config, FIRST_BOARD).as_deref(), Some("Aether"));
}

#[test]
fn defaults_are_already_ready() {
    assert_eq!(store().get(), AppConfig::default());
}

#[test]
fn boards_with_other_ids_are_kept() {
    let mut old = AppConfig::default();
    old.boards = vec![board("tab-1", Some("Cactuar")), board("tab-2", Some("Aether"))];
    let config = ConfigStore::new(old).get();
    assert_eq!(config.boards.len(), 2);
    assert_eq!(scope_of(&config, "tab-1").as_deref(), Some("Cactuar"));
    assert_eq!(scope_of(&config, "tab-2").as_deref(), Some("Aether"));
}

#[test]
fn a_config_with_no_boards_gets_one_and_too_many_are_cut() {
    let mut empty = AppConfig::default();
    empty.boards = Vec::new();
    assert_eq!(ids(&ConfigStore::new(empty).get()), vec![FIRST_BOARD.to_string()]);

    let mut crowded = AppConfig::default();
    crowded.boards = (1..=MAX_BOARDS + 2).map(|n| board(&format!("board-{n}"), None)).collect();
    assert_eq!(ConfigStore::new(crowded).get().boards.len(), MAX_BOARDS);
}

#[test]
fn reading_back_a_ready_config_changes_nothing() {
    let mut store = store();
    store.set_board_scope(FIRST_BOARD, "Cactuar").unwrap();
    store.add_board(Some("Aether".to_string())).unwrap();
    store.toggle_favorite(4745).unwrap();
    assert_eq!(reload(&store).get(), store.get());
    assert_eq!(reload(&reload(&store)).get(), store.get());
}

#[test]
fn hearting_then_unhearting_restores_the_list() {
    let mut store = store();
    store.toggle_favorite(1).unwrap();
    store.toggle_favorite(2).unwrap();
    let before = store.get().favorite_item_ids;
    store.toggle_favorite(3).unwrap();
    let config = store.toggle_favorite(3).unwrap();
    assert_eq!(config.favorite_item_ids, before);
}

#[test]
fn closing_a_board_keeps_the_others_in_order() {
    let mut store = store();
    store.add_board(Some("Aether".to_string())).unwrap();
    store.add_board(Some("Primal".to_string())).unwrap();
    let config = store.remove_board("board-2").unwrap();
    assert_eq!(ids(&config), vec!["board-1".to_string(), "board-3".to_string()]);
    assert_eq!(scope_of(&config, "board-3").as_deref(), Some("Primal"));
}

#[test]
fn updates_apply_the_closure_to_the_live_settings() {
    let mut store = store();
    let config = store
        .update(|mut c| {
            c.hotkey = "Alt+U".to_string();
            c
        })
        .unwrap();
    assert_eq!(config.hotkey, "Alt+U");
    assert_eq!(store.get().hotkey, "Alt+U");
    assert_eq!(config.boards.len(), 1);
}

#[test]
fn the_default_hotkey_is_the_documented_one() {
    assert_eq!(DEFAULT_HOTKEY, "CmdOrControl+Shift+M");
    assert_eq!(MAX_RECENT_ITEMS, 12);
    assert_eq!(MAX_FAVORITE_ITEMS, 100);
}

#[test]
fn closing_every_board_under_a_shared_id_is_refused() {
    let mut old = AppConfig::default();
    old.boards = vec![board("board-1", Some("Cactuar")), board("board-1", Some("Aether"))];
    let mut store = ConfigStore::new(old);
    assert_eq!(store.remove_board("board-1").unwrap_err().kind(), "invalid");
    assert_eq!(store.get().boards.len(), 2, "a board always remains");

    store.add_board(None).unwrap();
    let config = store.remove_board("board-1").unwrap();
    assert_eq!(ids(&config), vec!["board-2".to_string()]);
}
