# FFXIV Market Overlay

A companion window for Final Fantasy XIV that searches the tradable item
catalog and shows current market-board prices from Universalis, one column per
world or data center being compared.

## Layout

- `src/` — the library, verified with Verus:
  - `search.rs` — fuzzy search: nucleo scores each name, the library ranks
    (adjusted score, then shorter name, then byte order, then catalog order)
    and keeps the best `limit`; the ranking is proved unique.
  - `config.rs` — boards, hotkey, window geometry, recents and favorites, and
    every change the window can make to them.
  - `cache.rs` — per-session price cache keyed by (item, board), with a
    freshness window.
  - `universalis.rs` — the world / data-center / region hierarchy, request
    URLs, reply statuses, listing and sale ordering.
  - `xivapi_sync.rs` — the page-by-page walk over the XIVAPI `Item` sheet,
    sheet rows to catalog rows, and marketability.
  - `commands.rs`, `state.rs` — what the window's commands decide: the
    settings snapshot, new-board scopes, region retargeting, cache use, and
    the one-sync-at-a-time rule.
  - `catalog.rs`, `error.rs`, `text.rs` — row shapes, the error type, and
    character-level helpers.
- `tests/` — tests of the library.
- `app/` — the desktop program around the library: Tauri commands, tray and
  hotkey, HTTP, SQLite, the settings file, and the `sync-catalog` command line.
