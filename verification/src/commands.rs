//! What the window's commands decide, apart from the work they hand out:
//! the settings snapshot, which board a new column starts on, which saved
//! regions get retargeted, when a hotkey change is a no-op, when a price
//! comes from the cache, and what a sync progress tick looks like.

use vstd::prelude::*;
use crate::cache::{key_spec, age_spec, PriceCache};
use crate::catalog::CatalogInfo;
use crate::config::{opt_view, AppConfig, BoardConfig, BoardModel, MAX_BOARDS};
use crate::text::{trim, trim_spec, str_equal};
use crate::universalis::{
    data_centers_view, default_data_center_spec, widen_spec, worlds_view, DataCenterModel,
    MarketScopes, WorldModel,
};
use crate::xivapi_sync::SyncProgress;

verus! {

/// Event name for catalog-sync progress, as the window listens for it.
pub const SYNC_PROGRESS_EVENT: &'static str = "catalog-sync-progress";

/// One board being compared, as the strip and its column need it.
#[derive(Debug, PartialEq)]
pub struct BoardView {
    pub id: String,
    /// This board's world or data center.
    pub scope: Option<String>,
}

impl View for BoardView {
    type V = BoardModel;

    open spec fn view(&self) -> BoardModel {
        BoardModel { id: self.id@, scope: opt_view(self.scope) }
    }
}

/// The board views of a list, as a contract sees them.
pub open spec fn board_views(boards: Seq<BoardView>) -> Seq<BoardModel> {
    boards.map_values(|b: BoardView| b@)
}

/// Everything the window needs, in one round trip.
#[derive(Debug, PartialEq)]
pub struct Settings {
    /// Boards being compared, left to right: one column each.
    pub boards: Vec<BoardView>,
    /// False once `MAX_BOARDS` are open: the window disables its "+".
    pub can_add_board: bool,
    pub hotkey: String,
    pub recent_item_ids: Vec<u32>,
    /// Hearted item ids, so a row can draw a filled heart without asking.
    pub favorite_item_ids: Vec<u32>,
    pub catalog: CatalogInfo,
    /// False when no catalog has been synced yet.
    pub catalog_ready: bool,
    /// Why the hotkey isn't working, or `None` when it is.
    pub hotkey_error: Option<String>,
}

/// The settings snapshot for `config`, with the catalog facts and hotkey
/// state the caller looked up.
pub fn settings_from(
    config: AppConfig,
    catalog: CatalogInfo,
    catalog_ready: bool,
    hotkey_error: Option<String>,
) -> (r: Settings)
    ensures
        board_views(r.boards@) == config@.boards,
        r.can_add_board == (config@.boards.len() < MAX_BOARDS),
        r.hotkey@ == config@.hotkey,
        r.recent_item_ids@ == config@.recent_item_ids,
        r.favorite_item_ids@ == config@.favorite_item_ids,
        r.catalog == catalog,
        r.catalog_ready == catalog_ready,
        r.hotkey_error == hotkey_error,
{
    let ghost model = config@;
    let AppConfig { boards, hotkey, window: _, recent_item_ids, favorite_item_ids, legacy_scope: _ } =
        config;
    let can_add_board = boards.len() < MAX_BOARDS;
    let ghost all = boards@;
    let mut views: Vec<BoardView> = Vec::new();
    for board in it: boards.into_iter()
        invariant
            it.seq() == all,
            model.boards == all.map_values(|b: BoardConfig| b@),
            board_views(views@) == model.boards.take(it.index() as int),
    {
        let ghost before = views@;
        let ghost i = it.index() as int;
        assert(board == all[i]);
        let BoardConfig { id, scope } = board;
        views.push(BoardView { id, scope });
        assert(board_views(views@) =~= board_views(before).push(model.boards[i]));
        assert(model.boards.take(i + 1) =~= model.boards.take(i).push(model.boards[i]));
    }
    assert(model.boards.take(all.len() as int) =~= model.boards);
    Settings {
        boards: views,
        can_add_board,
        hotkey,
        recent_item_ids,
        favorite_item_ids,
        catalog,
        catalog_ready,
        hotkey_error,
    }
}

/// The board a new column starts on, given the rightmost board's scope and
/// the world list (`None` when it could not be had in time): one level wider
/// than that board, or the same board when it is as wide as boards go or the
/// list is missing. A rightmost board with no scope gives a new board with
/// none.
pub open spec fn next_board_scope_spec(
    current: Option<Seq<char>>,
    scopes: Option<(Seq<WorldModel>, Seq<DataCenterModel>)>,
) -> Option<Seq<char>> {
    match current {
        None => None,
        Some(c) => match scopes {
            Some((ws, ds)) => match widen_spec(ws, ds, c) {
                Some(w) => Some(w),
                None => Some(c),
            },
            None => Some(c),
        },
    }
}

/// The world list as a contract sees it.
pub open spec fn scopes_view(
    scopes: Option<&MarketScopes>,
) -> Option<(Seq<WorldModel>, Seq<DataCenterModel>)> {
    match scopes {
        Some(s) => Some((worlds_view(s.worlds@), data_centers_view(s.data_centers@))),
        None => None,
    }
}

/// The scope of a new column: one level out from the rightmost board.
pub fn next_board_scope(config: &AppConfig, scopes: Option<&MarketScopes>) -> (r: Option<String>)
    ensures
        opt_view(r) == next_board_scope_spec(
            if config@.boards.len() > 0 {
                config@.boards.last().scope
            } else {
                None
            },
            scopes_view(scopes),
        ),
{
    let n = config.boards.len();
    if n == 0 {
        return None;
    }
    assert(config@.boards.last() == config.boards@[n - 1]@);
    match &config.boards[n - 1].scope {
        None => None,
        Some(current) => match scopes {
            Some(s) => match s.widen(current.as_str()) {
                Some(w) => Some(w),
                None => Some(current.clone()),
            },
            None => Some(current.clone()),
        },
    }
}

/// The boards whose saved scope names a region, each with the data center
/// it resolves to, left to right.
pub open spec fn stale_boards_spec(boards: Seq<BoardModel>, dcs: Seq<DataCenterModel>) -> Seq<
    (Seq<char>, Seq<char>),
>
    decreases boards.len(),
{
    if boards.len() == 0 {
        Seq::empty()
    } else {
        let b = boards.last();
        stale_boards_spec(boards.drop_last(), dcs) + match b.scope {
            Some(s) => match default_data_center_spec(dcs, s) {
                Some(dc) => seq![(b.id, dc)],
                None => Seq::empty(),
            },
            None => Seq::empty(),
        }
    }
}

/// The id and scope characters of each pair.
pub open spec fn pairs_view(pairs: Seq<(String, String)>) -> Seq<(Seq<char>, Seq<char>)> {
    pairs.map_values(|p: (String, String)| (p.0@, p.1@))
}

/// Every board still on a region, which no board can usefully be (region
/// queries time out), paired with the data center to move it to.
pub fn stale_region_boards(config: &AppConfig, scopes: &MarketScopes) -> (r: Vec<(String, String)>)
    ensures
        pairs_view(r@) == stale_boards_spec(config@.boards, data_centers_view(scopes.data_centers@)),
{
    let ghost boards = config@.boards;
    let ghost dcs = data_centers_view(scopes.data_centers@);
    let mut out: Vec<(String, String)> = Vec::new();
    let mut i: usize = 0;
    while i < config.boards.len()
        invariant
            i <= config.boards@.len(),
            boards == config@.boards,
            dcs == data_centers_view(scopes.data_centers@),
            pairs_view(out@) == stale_boards_spec(boards.take(i as int), dcs),
        decreases config.boards@.len() - i,
    {
        let ghost before = out@;
        assert(boards[i as int] == config.boards@[i as int]@);
        assert(boards.take(i + 1).drop_last() =~= boards.take(i as int));
        assert(boards.take(i + 1).last() == boards[i as int]);
        let board = &config.boards[i];
        match &board.scope {
            Some(s) => match scopes.default_data_center(s.as_str()) {
                Some(dc) => {
                    out.push((board.id.clone(), dc));
                    assert(pairs_view(out@) =~= pairs_view(before).push(
                        (board.id@, opt_view(Some(out@.last().1)).unwrap()),
                    ));
                },
                None => {},
            },
            None => {},
        }
        assert(pairs_view(out@) =~= stale_boards_spec(boards.take(i + 1), dcs));
        i += 1;
    }
    assert(boards.take(i as int) =~= boards);
    out
}

/// Asking for the hotkey already in place changes nothing, unless it is not
/// registered: then it is the user retrying after freeing it elsewhere.
pub fn hotkey_unchanged(previous: &str, requested: &str, hotkey_error: &Option<String>) -> (r: bool)
    ensures
        r == (previous@ == trim_spec(requested@) && hotkey_error is None),
{
    str_equal(previous, trim(requested)) && hotkey_error.is_none()
}

/// The cached price for (item, board) a lookup may answer with: none when
/// the caller asks for a refresh (the entry is dropped so the next fetch
/// replaces it), else the entry if it is still fresh.
pub fn cached_price<V: Clone>(
    cache: &mut PriceCache<V>,
    item_id: u32,
    scope: &str,
    refresh: bool,
    now_ms: u64,
) -> (r: Option<V>)
    ensures
        refresh ==> r is None && final(cache)@ == old(cache)@.remove(key_spec(item_id, scope@)),
        !refresh ==> final(cache)@ == old(cache)@,
        !refresh ==> (r is Some <==> old(cache)@.contains_key(key_spec(item_id, scope@)) && age_spec(
            now_ms,
            old(cache)@[key_spec(item_id, scope@)].0,
        ) < old(cache).ttl_spec()),
        !refresh ==> (r matches Some(p) ==> cloned(old(cache)@[key_spec(item_id, scope@)].1, p)),
        final(cache).ttl_spec() == old(cache).ttl_spec(),
{
    if refresh {
        cache.invalidate(item_id, scope);
        None
    } else {
        cache.get(item_id, scope, now_ms)
    }
}

/// A progress tick as the window receives it: which stage, and how many.
#[derive(Debug, Clone, Copy, PartialEq, Eq)]
pub struct SyncProgressPayload {
    pub stage: &'static str,
    pub count: usize,
}

/// The stage name of a progress tick.
pub open spec fn stage_of(progress: SyncProgress) -> Seq<char> {
    match progress {
        SyncProgress::FetchedItems(_) => "items"@,
        SyncProgress::FetchedMarketable(_) => "marketable"@,
        SyncProgress::Wrote(_) => "wrote"@,
    }
}

/// The count a progress tick carries.
pub open spec fn count_of(progress: SyncProgress) -> usize {
    match progress {
        SyncProgress::FetchedItems(n) => n,
        SyncProgress::FetchedMarketable(n) => n,
        SyncProgress::Wrote(n) => n,
    }
}

/// The payload sent to the window for a progress tick.
pub fn progress_payload(progress: SyncProgress) -> (r: SyncProgressPayload)
    ensures
        r.stage@ == stage_of(progress),
        r.count == count_of(progress),
{
    match progress {
        SyncProgress::FetchedItems(count) => SyncProgressPayload { stage: "items", count },
        SyncProgress::FetchedMarketable(count) => SyncProgressPayload { stage: "marketable", count },
        SyncProgress::Wrote(count) => SyncProgressPayload { stage: "wrote", count },
    }
}

} // verus!
