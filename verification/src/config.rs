//! User settings: the boards being compared, the hotkey, the overlay's last
//! geometry, recently viewed and hearted items.
//!
//! `ConfigStore` holds the live settings and applies every change the window
//! asks for; persisting them is the caller's job.

use vstd::prelude::*;
use vstd::set_lib::{set_int_range, lemma_int_range, lemma_map_size, lemma_len_subset};
use vstd::relations::injective_on;
use vstd::string::StringExecFns;
use crate::error::{AppError, AppResult, invalid};
use crate::text::{trim, trim_spec, str_equal, push_decimal, decimal_spec, digit_char};

verus! {

/// Accelerator every config starts with.
pub const DEFAULT_HOTKEY: &'static str = "CmdOrControl+Shift+M";

/// Most recently viewed items kept.
pub const MAX_RECENT_ITEMS: usize = 12;

/// Favorites are deliberate, not automatic, so the cap only exists to stop a
/// hand-edited config from growing without bound.
pub const MAX_FAVORITE_ITEMS: usize = 100;

/// Id of the board every config starts with.
pub const FIRST_BOARD: &'static str = "board-1";

/// Prefix for generated board ids.
pub const BOARD_PREFIX: &'static str = "board-";

/// Ceiling on open boards: every board is a column in the same window.
pub const MAX_BOARDS: usize = 4;

/// Told to a caller asking for a board's scope before one is chosen.
pub const SCOPE_MISSING: &'static str = "pick your home world or data center in settings first";

/// Told to a caller naming a blank world or data center.
pub const SCOPE_BLANK: &'static str = "world or data center cannot be empty";

/// Told to a caller closing the only board.
pub const ONLY_BOARD: &'static str =
    "that's the only board - press Esc or the hotkey to hide the overlay";

/// Told to a caller setting a blank hotkey.
pub const HOTKEY_BLANK: &'static str = "hotkey cannot be empty";

/// What a board is, to a contract: its id and its world or data center.
pub struct BoardModel {
    pub id: Seq<char>,
    pub scope: Option<Seq<char>>,
}

/// What a config is, to a contract.
pub struct ConfigModel {
    pub boards: Seq<BoardModel>,
    pub hotkey: Seq<char>,
    pub window: Option<WindowState>,
    pub recent_item_ids: Seq<u32>,
    pub favorite_item_ids: Seq<u32>,
    pub legacy_scope: Option<Seq<char>>,
}

/// The characters of an optional string.
pub open spec fn opt_view(o: Option<String>) -> Option<Seq<char>> {
    match o {
        Some(s) => Some(s@),
        None => None,
    }
}

fn clone_opt_string(o: &Option<String>) -> (r: Option<String>)
    ensures
        opt_view(r) == opt_view(*o),
{
    match o {
        Some(s) => Some(s.clone()),
        None => None,
    }
}

/// One market board the user is watching, shown as its own column.
#[derive(Debug, PartialEq)]
pub struct BoardConfig {
    pub id: String,
    /// World or data center name passed straight to Universalis. `None` only
    /// until first launch resolves one.
    pub scope: Option<String>,
}

impl View for BoardConfig {
    type V = BoardModel;

    open spec fn view(&self) -> BoardModel {
        BoardModel { id: self.id@, scope: opt_view(self.scope) }
    }
}

impl Clone for BoardConfig {
    fn clone(&self) -> (r: Self)
        ensures
            r@ == self@,
    {
        BoardConfig { id: self.id.clone(), scope: clone_opt_string(&self.scope) }
    }
}

/// The scope a board can be queried with: its scope trimmed, when that
/// leaves something.
pub open spec fn usable_scope(scope: Option<Seq<char>>) -> Option<Seq<char>> {
    match scope {
        Some(s) => if trim_spec(s).len() > 0 {
            Some(trim_spec(s))
        } else {
            None
        },
        None => None,
    }
}

impl BoardConfig {
    /// A board with the given id and no scope yet.
    pub fn new(id: &str) -> (r: Self)
        ensures
            r@ == (BoardModel { id: id@, scope: None }),
    {
        BoardConfig { id: String::from_str(id), scope: None }
    }

    /// The scope to query, or an error explaining that setup isn't done.
    pub fn require_scope(&self) -> (r: AppResult<&str>)
        ensures
            r is Ok <==> usable_scope(self@.scope) is Some,
            r matches Ok(s) ==> Some(s@) == usable_scope(self@.scope),
            r matches Err(e) ==> e.is_invalid_with(SCOPE_MISSING@),
    {
        match &self.scope {
            Some(s) => {
                let t = trim(s.as_str());
                if t.is_empty() {
                    Err(invalid(SCOPE_MISSING))
                } else {
                    Ok(t)
                }
            },
            None => Err(invalid(SCOPE_MISSING)),
        }
    }
}

impl Default for BoardConfig {
    fn default() -> (r: Self)
        ensures
            r@ == (BoardModel { id: FIRST_BOARD@, scope: None }),
    {
        Self::new(FIRST_BOARD)
    }
}

/// Last overlay position and size, restored on show.
#[derive(Debug, Clone, Copy, PartialEq)]
pub struct WindowState {
    pub x: i32,
    pub y: i32,
    pub width: u32,
    pub height: u32,
}

/// `i` is the first board in `boards` with this id.
pub open spec fn is_first_board(boards: Seq<BoardModel>, id: Seq<char>, i: int) -> bool {
    &&& 0 <= i < boards.len()
    &&& boards[i].id == id
    &&& forall|j: int| 0 <= j < i ==> boards[j].id != id
}

/// Some board in `boards` has this id.
pub open spec fn has_board(boards: Seq<BoardModel>, id: Seq<char>) -> bool {
    exists|i: int| 0 <= i < boards.len() && boards[i].id == id
}

/// Position of the first board with this id (meaningful when `has_board`).
pub open spec fn board_position(boards: Seq<BoardModel>, id: Seq<char>) -> int {
    choose|i: int| is_first_board(boards, id, i)
}

/// The first board with an id is the one `board_position` names.
pub proof fn lemma_board_position(boards: Seq<BoardModel>, id: Seq<char>, i: int)
    requires
        is_first_board(boards, id, i),
    ensures
        board_position(boards, id) == i,
{
    let k = board_position(boards, id);
    assert(is_first_board(boards, id, k));
    if k < i {
        assert(boards[k].id != id);
    } else if k > i {
        assert(boards[i].id != id);
    }
}

/// Whenever some board has an id, `board_position` is the first of them.
pub proof fn lemma_has_board(boards: Seq<BoardModel>, id: Seq<char>)
    requires
        has_board(boards, id),
    ensures
        is_first_board(boards, id, board_position(boards, id)),
{
    let i = choose|i: int| 0 <= i < boards.len() && boards[i].id == id;
    lemma_first_board_below(boards, id, i);
}

proof fn lemma_first_board_below(boards: Seq<BoardModel>, id: Seq<char>, i: int)
    requires
        0 <= i < boards.len(),
        boards[i].id == id,
    ensures
        is_first_board(boards, id, board_position(boards, id)),
    decreases i,
{
    if forall|j: int| 0 <= j < i ==> boards[j].id != id {
        assert(is_first_board(boards, id, i));
    } else {
        let j = choose|j: int| 0 <= j < i && boards[j].id == id;
        lemma_first_board_below(boards, id, j);
    }
}

/// The user's settings.
#[derive(Debug, PartialEq)]
pub struct AppConfig {
    /// Boards being compared, left to right.
    pub boards: Vec<BoardConfig>,
    /// Accelerator string for the show/hide hotkey.
    pub hotkey: String,
    /// Last overlay position/size, restored on show.
    pub window: Option<WindowState>,
    /// Most recently viewed items, newest first.
    pub recent_item_ids: Vec<u32>,
    /// Hearted items, newest first.
    pub favorite_item_ids: Vec<u32>,
    /// The single world an older, one-board config stored; folded into the
    /// first board when a store is made from the config, never kept.
    pub legacy_scope: Option<String>,
}

/// The models of a list of boards.
pub open spec fn boards_view(boards: Seq<BoardConfig>) -> Seq<BoardModel> {
    boards.map_values(|b: BoardConfig| b@)
}

impl View for AppConfig {
    type V = ConfigModel;

    open spec fn view(&self) -> ConfigModel {
        ConfigModel {
            boards: boards_view(self.boards@),
            hotkey: self.hotkey@,
            window: self.window,
            recent_item_ids: self.recent_item_ids@,
            favorite_item_ids: self.favorite_item_ids@,
            legacy_scope: opt_view(self.legacy_scope),
        }
    }
}

/// The config a first launch starts from.
pub open spec fn default_config() -> ConfigModel {
    ConfigModel {
        boards: seq![BoardModel { id: FIRST_BOARD@, scope: None }],
        hotkey: DEFAULT_HOTKEY@,
        window: None,
        recent_item_ids: Seq::empty(),
        favorite_item_ids: Seq::empty(),
        legacy_scope: None,
    }
}

impl Default for AppConfig {
    fn default() -> (r: Self)
        ensures
            r@ == default_config(),
    {
        let mut boards: Vec<BoardConfig> = Vec::new();
        boards.push(BoardConfig::new(FIRST_BOARD));
        let r = AppConfig {
            boards,
            hotkey: String::from_str(DEFAULT_HOTKEY),
            window: None,
            recent_item_ids: Vec::new(),
            favorite_item_ids: Vec::new(),
            legacy_scope: None,
        };
        assert(r@.boards =~= default_config().boards);
        r
    }
}

fn copy_ids(v: &Vec<u32>) -> (r: Vec<u32>)
    ensures
        r@ == v@,
{
    let mut r: Vec<u32> = Vec::new();
    let mut i: usize = 0;
    while i < v.len()
        invariant
            i <= v@.len(),
            r@ == v@.subrange(0, i as int),
        decreases v@.len() - i,
    {
        r.push(v[i]);
        i += 1;
    }
    assert(v@.subrange(0, v@.len() as int) =~= v@);
    r
}

fn clone_boards(v: &Vec<BoardConfig>) -> (r: Vec<BoardConfig>)
    ensures
        boards_view(r@) == boards_view(v@),
{
    let mut r: Vec<BoardConfig> = Vec::new();
    let mut i: usize = 0;
    while i < v.len()
        invariant
            i <= v@.len(),
            r@.len() == i,
            boards_view(r@) == boards_view(v@.subrange(0, i as int)),
        decreases v@.len() - i,
    {
        let b = BoardConfig { id: v[i].id.clone(), scope: clone_opt_string(&v[i].scope) };
        let ghost prev = r@;
        r.push(b);
        assert forall|j: int| 0 <= j < i + 1 implies #[trigger] boards_view(r@)[j] == boards_view(
            v@.subrange(0, i + 1),
        )[j] by {
            if j < i {
                assert(boards_view(prev)[j] == boards_view(v@.subrange(0, i as int))[j]);
            }
        }
        assert(boards_view(r@) =~= boards_view(v@.subrange(0, i + 1)));
        i += 1;
    }
    assert(v@.subrange(0, v@.len() as int) =~= v@);
    r
}

impl Clone for AppConfig {
    fn clone(&self) -> (r: Self)
        ensures
            r@ == self@,
    {
        AppConfig {
            boards: clone_boards(&self.boards),
            hotkey: self.hotkey.clone(),
            window: self.window,
            recent_item_ids: copy_ids(&self.recent_item_ids),
            favorite_item_ids: copy_ids(&self.favorite_item_ids),
            legacy_scope: clone_opt_string(&self.legacy_scope),
        }
    }
}

/// The message for a board id nothing answers to.
pub open spec fn board_gone_message(id: Seq<char>) -> Seq<char> {
    "that board is gone: '"@ + id + "'"@
}

impl AppConfig {
    /// Position of the first board with this id, if any.
    fn find_board(&self, id: &str) -> (r: Option<usize>)
        ensures
            r matches Some(i) ==> is_first_board(self@.boards, id@, i as int),
            r is None ==> !has_board(self@.boards, id@),
    {
        let mut i: usize = 0;
        while i < self.boards.len()
            invariant
                i <= self.boards@.len(),
                forall|j: int| 0 <= j < i ==> self@.boards[j].id != id@,
            decreases self.boards@.len() - i,
        {
            if str_equal(self.boards[i].id.as_str(), id) {
                return Some(i);
            }
            i += 1;
        }
        None
    }

    /// The first board with this id.
    pub fn board(&self, id: &str) -> (r: Option<&BoardConfig>)
        ensures
            r is Some <==> has_board(self@.boards, id@),
            r matches Some(b) ==> b@ == self@.boards[board_position(self@.boards, id@)],
    {
        match self.find_board(id) {
            Some(i) => {
                proof {
                    lemma_board_position(self@.boards, id@, i as int);
                }
                Some(&self.boards[i])
            },
            None => None,
        }
    }

    /// The board a request names. An id with no board behind it means the UI
    /// is working from a stale copy of the board list.
    pub fn require_board(&self, id: &str) -> (r: AppResult<&BoardConfig>)
        ensures
            r is Ok <==> has_board(self@.boards, id@),
            r matches Ok(b) ==> b@ == self@.boards[board_position(self@.boards, id@)],
            r matches Err(e) ==> e.is_invalid_with(board_gone_message(id@)),
    {
        match self.board(id) {
            Some(b) => Ok(b),
            None => {
                let mut m = String::from_str("that board is gone: '");
                m.append(id);
                m.append("'");
                Err(AppError::Invalid(m))
            },
        }
    }

    /// Whether this item is hearted.
    pub fn is_favorite(&self, item_id: u32) -> (r: bool)
        ensures
            r == self@.favorite_item_ids.contains(item_id),
    {
        let mut i: usize = 0;
        while i < self.favorite_item_ids.len()
            invariant
                i <= self.favorite_item_ids@.len(),
                forall|j: int| 0 <= j < i ==> self.favorite_item_ids@[j] != item_id,
            decreases self.favorite_item_ids@.len() - i,
        {
            if self.favorite_item_ids[i] == item_id {
                return true;
            }
            i += 1;
        }
        false
    }
}


/// The config with its boards replaced.
pub open spec fn with_boards(c: ConfigModel, boards: Seq<BoardModel>) -> ConfigModel {
    ConfigModel {
        boards,
        hotkey: c.hotkey,
        window: c.window,
        recent_item_ids: c.recent_item_ids,
        favorite_item_ids: c.favorite_item_ids,
        legacy_scope: c.legacy_scope,
    }
}

/// The config with its recently viewed items replaced.
pub open spec fn with_recents(c: ConfigModel, ids: Seq<u32>) -> ConfigModel {
    ConfigModel {
        boards: c.boards,
        hotkey: c.hotkey,
        window: c.window,
        recent_item_ids: ids,
        favorite_item_ids: c.favorite_item_ids,
        legacy_scope: c.legacy_scope,
    }
}

/// The config with its hearted items replaced.
pub open spec fn with_favorites(c: ConfigModel, ids: Seq<u32>) -> ConfigModel {
    ConfigModel {
        boards: c.boards,
        hotkey: c.hotkey,
        window: c.window,
        recent_item_ids: c.recent_item_ids,
        favorite_item_ids: ids,
        legacy_scope: c.legacy_scope,
    }
}

/// The config with its hotkey replaced.
pub open spec fn with_hotkey(c: ConfigModel, hotkey: Seq<char>) -> ConfigModel {
    ConfigModel {
        boards: c.boards,
        hotkey,
        window: c.window,
        recent_item_ids: c.recent_item_ids,
        favorite_item_ids: c.favorite_item_ids,
        legacy_scope: c.legacy_scope,
    }
}

/// The config with its saved window geometry replaced.
pub open spec fn with_window(c: ConfigModel, window: Option<WindowState>) -> ConfigModel {
    ConfigModel {
        boards: c.boards,
        hotkey: c.hotkey,
        window,
        recent_item_ids: c.recent_item_ids,
        favorite_item_ids: c.favorite_item_ids,
        legacy_scope: c.legacy_scope,
    }
}

/// A loaded config made ready for use: there is always a board, an older
/// config's single world lands on the first board when that board has none of
/// its own, and no more than `MAX_BOARDS` boards are kept.
pub open spec fn migrate_spec(c: ConfigModel) -> ConfigModel {
    let b1 = if c.boards.len() == 0 {
        seq![BoardModel { id: FIRST_BOARD@, scope: None }]
    } else {
        c.boards
    };
    let b2 = match c.legacy_scope {
        Some(s) => if b1[0].scope is None {
            b1.update(0, BoardModel { id: b1[0].id, scope: Some(s) })
        } else {
            b1
        },
        None => b1,
    };
    let b3 = if b2.len() > MAX_BOARDS {
        b2.take(MAX_BOARDS as int)
    } else {
        b2
    };
    ConfigModel {
        boards: b3,
        hotkey: c.hotkey,
        window: c.window,
        recent_item_ids: c.recent_item_ids,
        favorite_item_ids: c.favorite_item_ids,
        legacy_scope: None,
    }
}

/// The id generated for the `n`th board.
pub open spec fn board_id_spec(n: nat) -> Seq<char> {
    BOARD_PREFIX@ + decimal_spec(n)
}

/// `n` is the smallest board number whose id no board uses.
pub open spec fn is_free_board_number(boards: Seq<BoardModel>, n: nat) -> bool {
    &&& n >= 1
    &&& !has_board(boards, board_id_spec(n))
    &&& forall|m: nat| 1 <= m < n ==> has_board(boards, board_id_spec(m))
}

/// The smallest board number whose id no board uses.
pub open spec fn free_board_number(boards: Seq<BoardModel>) -> nat {
    choose|n: nat| is_free_board_number(boards, n)
}

/// Keeps every element but `id`.
pub open spec fn not_item(id: u32) -> spec_fn(u32) -> bool {
    |x: u32| x != id
}

/// Keeps every board but those with this id.
pub open spec fn not_board(id: Seq<char>) -> spec_fn(BoardModel) -> bool {
    |b: BoardModel| b.id != id
}

/// Recently viewed items after viewing `id`: it moves to the front, appears
/// once, and the list keeps at most `MAX_RECENT_ITEMS`.
pub open spec fn push_recent_spec(recents: Seq<u32>, id: u32) -> Seq<u32> {
    let r = seq![id] + recents.filter(not_item(id));
    if r.len() > MAX_RECENT_ITEMS {
        r.take(MAX_RECENT_ITEMS as int)
    } else {
        r
    }
}

/// Told to a caller adding a board past the cap.
pub open spec fn max_boards_message() -> Seq<char> {
    decimal_spec(MAX_BOARDS as nat) + " boards is the maximum - close one first"@
}

/// Told to a caller hearting an item past the cap.
pub open spec fn max_favorites_message() -> Seq<char> {
    decimal_spec(MAX_FAVORITE_ITEMS as nat) + " favorites is the maximum - remove one first"@
}

/// The config with the first board named `id` pointed at `scope`.
pub open spec fn set_scope_spec(c: ConfigModel, id: Seq<char>, scope: Seq<char>) -> ConfigModel {
    with_boards(
        c,
        c.boards.update(board_position(c.boards, id), BoardModel { id, scope: Some(scope) }),
    )
}

proof fn lemma_board_id_injective(a: nat, b: nat)
    requires
        board_id_spec(a) == board_id_spec(b),
    ensures
        a == b,
{
    let p = BOARD_PREFIX@;
    assert(board_id_spec(a).subrange(p.len() as int, board_id_spec(a).len() as int)
        =~= decimal_spec(a));
    assert(board_id_spec(b).subrange(p.len() as int, board_id_spec(b).len() as int)
        =~= decimal_spec(b));
    crate::text::lemma_decimal_injective(a, b);
}

proof fn lemma_free_number(boards: Seq<BoardModel>, n: nat)
    requires
        is_free_board_number(boards, n),
    ensures
        free_board_number(boards) == n,
{
    let k = free_board_number(boards);
    assert(is_free_board_number(boards, k));
    if k < n {
        assert(has_board(boards, board_id_spec(k)));
    } else if k > n {
        assert(has_board(boards, board_id_spec(n)));
    }
}

/// With `k` boards, the ids of the first `k + 1` board numbers cannot all be
/// in use.
proof fn lemma_some_id_free(boards: Seq<BoardModel>)
    ensures
        exists|m: nat| 1 <= m <= boards.len() + 1 && !has_board(boards, board_id_spec(m)),
{
    if forall|m: nat| 1 <= m <= boards.len() + 1 ==> has_board(boards, board_id_spec(m)) {
        let k = boards.len() as int;
        let f = |m: int| board_position(boards, board_id_spec(m as nat));
        let x = set_int_range(1, k + 2);
        lemma_int_range(1, k + 2);
        assert forall|m: int| x.contains(m) implies is_first_board(
            boards,
            board_id_spec(m as nat),
            #[trigger] f(m),
        ) by {
            assert(has_board(boards, board_id_spec(m as nat)));
            lemma_has_board(boards, board_id_spec(m as nat));
        }
        assert forall|a: int, b: int| x.contains(a) && x.contains(b) && #[trigger] f(a) == #[trigger] f(
            b,
        ) implies a == b by {
            assert(is_first_board(boards, board_id_spec(a as nat), f(a)));
            assert(is_first_board(boards, board_id_spec(b as nat), f(b)));
            lemma_board_id_injective(a as nat, b as nat);
        }
        assert(injective_on(f, x));
        let y = x.map(f);
        lemma_map_size(x, y, f);
        let z = set_int_range(0, k);
        lemma_int_range(0, k);
        assert forall|i: int| y.contains(i) implies z.contains(i) by {
            let m = choose|m: int| x.contains(m) && f(m) == i;
            assert(is_first_board(boards, board_id_spec(m as nat), f(m)));
        }
        assert(y.subset_of(z));
        lemma_len_subset(y, z);
    }
}

fn board_gone(id: &str) -> (e: AppError)
    ensures
        e.is_invalid_with(board_gone_message(id@)),
{
    let mut m = String::from_str("that board is gone: '");
    m.append(id);
    m.append("'");
    AppError::Invalid(m)
}

impl AppConfig {
    /// An id no open board is using, for the next one.
    fn free_board_id(&self) -> (r: String)
        requires
            self.boards@.len() < MAX_BOARDS,
        ensures
            r@ == board_id_spec(free_board_number(self@.boards)),
    {
        let mut n: u64 = 1;
        loop
            invariant
                self.boards@.len() < MAX_BOARDS,
                1 <= n <= self@.boards.len() + 1,
                forall|m: nat| 1 <= m < n ==> has_board(self@.boards, board_id_spec(m)),
            decreases self@.boards.len() + 1 - n,
        {
            let mut candidate = String::from_str(BOARD_PREFIX);
            push_decimal(&mut candidate, n);
            if self.find_board(candidate.as_str()).is_none() {
                proof {
                    lemma_free_number(self@.boards, n as nat);
                }
                return candidate;
            }
            proof {
                if n == self@.boards.len() + 1 {
                    assert forall|m: nat| 1 <= m <= self@.boards.len() + 1 implies has_board(
                        self@.boards,
                        board_id_spec(m),
                    ) by {
                        if m == n {
                            let i = choose|i: int| is_first_board(self@.boards, candidate@, i);
                            assert(self@.boards[i].id == candidate@);
                        }
                    }
                    lemma_some_id_free(self@.boards);
                }
            }
            n += 1;
        }
    }

    /// The config made ready for use; see `migrate_spec`.
    fn migrate(&mut self)
        ensures
            final(self)@ == migrate_spec(old(self)@),
    {
        if self.boards.len() == 0 {
            self.boards.push(BoardConfig::new(FIRST_BOARD));
        }
        let ghost b1 = self@.boards;
        assert(b1 == (if old(self)@.boards.len() == 0 {
            seq![BoardModel { id: FIRST_BOARD@, scope: None }]
        } else {
            old(self)@.boards
        }));
        if let Some(scope) = self.legacy_scope.take() {
            if self.boards[0].scope.is_none() {
                let first = BoardConfig { id: self.boards[0].id.clone(), scope: Some(scope) };
                self.boards.set(0, first);
                assert(self@.boards =~= b1.update(0, BoardModel { id: b1[0].id, scope: opt_view(old(self).legacy_scope) }));
            }
        }
        self.legacy_scope = None;
        let ghost b2 = self@.boards;
        self.boards.truncate(MAX_BOARDS);
        assert(self@.boards =~= (if b2.len() > MAX_BOARDS {
            b2.take(MAX_BOARDS as int)
        } else {
            b2
        }));
    }
}

/// Holds the live settings and applies every change to them.
pub struct ConfigStore {
    config: AppConfig,
}

impl View for ConfigStore {
    type V = ConfigModel;

    closed spec fn view(&self) -> ConfigModel {
        self.config@
    }
}

impl ConfigStore {
    /// A store over `config` (loaded from disk, or the default when there was
    /// none), migrated as `migrate_spec` says.
    pub fn new(config: AppConfig) -> (r: Self)
        ensures
            r@ == migrate_spec(config@),
    {
        let mut config = config;
        config.migrate();
        ConfigStore { config }
    }

    /// A copy of the live settings.
    pub fn get(&self) -> (r: AppConfig)
        ensures
            r@ == self@,
    {
        self.config.clone()
    }

    /// Replace the settings with what `mutate` makes of them.
    pub fn update<F>(&mut self, mutate: F) -> (r: AppResult<AppConfig>)
        where
            F: FnOnce(AppConfig) -> AppConfig,
        requires
            forall|c: AppConfig| c@ == old(self)@ ==> call_requires(mutate, (c,)),
        ensures
            r matches Ok(n) && n@ == final(self)@ && exists|c: AppConfig, m: AppConfig|
                c@ == old(self)@ && #[trigger] call_ensures(mutate, (c,), m) && m@ == n@,
    {
        let current = self.config.clone();
        let updated = mutate(current);
        self.config = updated;
        Ok(self.config.clone())
    }

    /// Point one board at a world or data center. Only that board moves.
    pub fn set_board_scope(&mut self, id: &str, scope: &str) -> (r: AppResult<AppConfig>)
        ensures
            ({
                let c = old(self)@;
                let t = trim_spec(scope@);
                if t.len() == 0 {
                    &&& r matches Err(e) && e.is_invalid_with(SCOPE_BLANK@)
                    &&& final(self)@ == c
                } else if !has_board(c.boards, id@) {
                    &&& r matches Err(e) && e.is_invalid_with(board_gone_message(id@))
                    &&& final(self)@ == c
                } else {
                    &&& r matches Ok(n) && n@ == final(self)@
                    &&& final(self)@ == set_scope_spec(c, id@, t)
                }
            }),
    {
        let t = trim(scope);
        if t.is_empty() {
            return Err(invalid(SCOPE_BLANK));
        }
        match self.config.find_board(id) {
            None => Err(board_gone(id)),
            Some(i) => {
                proof {
                    lemma_board_position(self@.boards, id@, i as int);
                }
                self.point_board(i, id, t);
                Ok(self.config.clone())
            },
        }
    }

    fn point_board(&mut self, i: usize, id: &str, scope: &str)
        requires
            i < old(self)@.boards.len(),
        ensures
            final(self)@ == with_boards(
                old(self)@,
                old(self)@.boards.update(i as int, BoardModel { id: id@, scope: Some(scope@) }),
            ),
    {
        let board = BoardConfig { id: String::from_str(id), scope: Some(String::from_str(scope)) };
        let ghost before = self@.boards;
        self.config.boards.set(i, board);
        assert(self@.boards =~= before.update(i as int, BoardModel { id: id@, scope: Some(scope@) }));
    }

    /// Set a first-launch scope, but never overwrite a choice already made.
    pub fn set_guessed_board_scope(&mut self, id: &str, scope: &str) -> (r: AppResult<AppConfig>)
        ensures
            ({
                let c = old(self)@;
                let t = trim_spec(scope@);
                if t.len() == 0 {
                    &&& r matches Err(e) && e.is_invalid_with(SCOPE_BLANK@)
                    &&& final(self)@ == c
                } else if !has_board(c.boards, id@) {
                    &&& r matches Err(e) && e.is_invalid_with(board_gone_message(id@))
                    &&& final(self)@ == c
                } else if c.boards[board_position(c.boards, id@)].scope is Some {
                    &&& r matches Ok(n) && n@ == c
                    &&& final(self)@ == c
                } else {
                    &&& r matches Ok(n) && n@ == final(self)@
                    &&& final(self)@ == set_scope_spec(c, id@, t)
                }
            }),
    {
        let t = trim(scope);
        if t.is_empty() {
            return Err(invalid(SCOPE_BLANK));
        }
        match self.config.find_board(id) {
            None => Err(board_gone(id)),
            Some(i) => {
                proof {
                    lemma_board_position(self@.boards, id@, i as int);
                }
                if self.config.boards[i].scope.is_some() {
                    return Ok(self.config.clone());
                }
                self.point_board(i, id, t);
                Ok(self.config.clone())
            },
        }
    }

    /// Add a board as a new right-hand column, under the smallest free id.
    pub fn add_board(&mut self, scope: Option<String>) -> (r: AppResult<AppConfig>)
        ensures
            ({
                let c = old(self)@;
                if c.boards.len() >= MAX_BOARDS {
                    &&& r matches Err(e) && e.is_invalid_with(max_boards_message())
                    &&& final(self)@ == c
                } else {
                    &&& r matches Ok(n) && n@ == final(self)@
                    &&& final(self)@ == with_boards(
                        c,
                        c.boards.push(
                            BoardModel {
                                id: board_id_spec(free_board_number(c.boards)),
                                scope: opt_view(scope),
                            },
                        ),
                    )
                }
            }),
    {
        if self.config.boards.len() >= MAX_BOARDS {
            let mut m = String::new();
            push_decimal(&mut m, MAX_BOARDS as u64);
            m.append(" boards is the maximum - close one first");
            return Err(AppError::Invalid(m));
        }
        let id = self.config.free_board_id();
        let ghost before = self@.boards;
        let board = BoardConfig { id, scope };
        self.config.boards.push(board);
        assert(self@.boards =~= before.push(board@));
        Ok(self.config.clone())
    }

    /// Close a board's column (every board under that id). A board always
    /// remains: closing what would leave none is refused, since an overlay
    /// with no board to show is just an empty window.
    pub fn remove_board(&mut self, id: &str) -> (r: AppResult<AppConfig>)
        ensures
            ({
                let c = old(self)@;
                if !has_board(c.boards, id@) {
                    &&& r matches Err(e) && e.is_invalid_with(board_gone_message(id@))
                    &&& final(self)@ == c
                } else if c.boards.filter(not_board(id@)).len() == 0 {
                    &&& r matches Err(e) && e.is_invalid_with(ONLY_BOARD@)
                    &&& final(self)@ == c
                } else {
                    &&& r matches Ok(n) && n@ == final(self)@
                    &&& final(self)@ == with_boards(c, c.boards.filter(not_board(id@)))
                }
            }),
    {
        if self.config.find_board(id).is_none() {
            return Err(board_gone(id));
        }
        let ghost models = self@.boards;
        let mut kept: Vec<BoardConfig> = Vec::new();
        let mut i: usize = 0;
        while i < self.config.boards.len()
            invariant
                models == self@.boards,
                i <= models.len(),
                boards_view(kept@) == models.take(i as int).filter(not_board(id@)),
            decreases models.len() - i,
        {
            proof {
                assert(models.take(i + 1) =~= models.take(i as int).push(models[i as int]));
                models.take(i as int).lemma_filter_push(models[i as int], not_board(id@));
            }
            if !str_equal(self.config.boards[i].id.as_str(), id) {
                let b = BoardConfig {
                    id: self.config.boards[i].id.clone(),
                    scope: clone_opt_string(&self.config.boards[i].scope),
                };
                let ghost prev = kept@;
                kept.push(b);
                assert(boards_view(kept@) =~= boards_view(prev).push(b@));
            }
            i += 1;
        }
        assert(models.take(models.len() as int) =~= models);
        if kept.len() == 0 {
            return Err(invalid(ONLY_BOARD));
        }
        self.config.boards = kept;
        Ok(self.config.clone())
    }

    /// Change the show/hide accelerator; it is stored trimmed.
    pub fn set_hotkey(&mut self, hotkey: &str) -> (r: AppResult<AppConfig>)
        ensures
            ({
                let c = old(self)@;
                let t = trim_spec(hotkey@);
                if t.len() == 0 {
                    &&& r matches Err(e) && e.is_invalid_with(HOTKEY_BLANK@)
                    &&& final(self)@ == c
                } else {
                    &&& r matches Ok(n) && n@ == final(self)@
                    &&& final(self)@ == with_hotkey(c, t)
                }
            }),
    {
        let t = trim(hotkey);
        if t.is_empty() {
            return Err(invalid(HOTKEY_BLANK));
        }
        self.config.hotkey = String::from_str(t);
        Ok(self.config.clone())
    }

    /// Remember the overlay's position and size.
    pub fn set_window(&mut self, window: WindowState) -> (r: AppResult<AppConfig>)
        ensures
            r matches Ok(n) && n@ == final(self)@,
            final(self)@ == with_window(old(self)@, Some(window)),
    {
        self.config.window = Some(window);
        Ok(self.config.clone())
    }

    /// Record an item as viewed: it moves to the front of the recents.
    pub fn push_recent(&mut self, item_id: u32) -> (r: AppResult<AppConfig>)
        ensures
            r matches Ok(n) && n@ == final(self)@,
            final(self)@ == with_recents(
                old(self)@,
                push_recent_spec(old(self)@.recent_item_ids, item_id),
            ),
    {
        let ghost old_ids = self@.recent_item_ids;
        let mut ids: Vec<u32> = Vec::new();
        ids.push(item_id);
        let mut i: usize = 0;
        while i < self.config.recent_item_ids.len()
            invariant
                old_ids == self@.recent_item_ids,
                i <= old_ids.len(),
                ids@ == seq![item_id] + old_ids.take(i as int).filter(not_item(item_id)),
            decreases old_ids.len() - i,
        {
            proof {
                assert(old_ids.take(i + 1) =~= old_ids.take(i as int).push(old_ids[i as int]));
                old_ids.take(i as int).lemma_filter_push(old_ids[i as int], not_item(item_id));
            }
            let x = self.config.recent_item_ids[i];
            if x != item_id {
                ids.push(x);
            }
            i += 1;
        }
        assert(old_ids.take(old_ids.len() as int) =~= old_ids);
        let ghost full = ids@;
        ids.truncate(MAX_RECENT_ITEMS);
        assert(ids@ =~= push_recent_spec(old_ids, item_id));
        self.config.recent_item_ids = ids;
        Ok(self.config.clone())
    }

    /// Forget every recently viewed item.
    pub fn clear_recents(&mut self) -> (r: AppResult<AppConfig>)
        ensures
            r matches Ok(n) && n@ == final(self)@,
            final(self)@ == with_recents(old(self)@, Seq::empty()),
    {
        self.config.recent_item_ids = Vec::new();
        Ok(self.config.clone())
    }

    /// Heart an item, or un-heart it if it is already hearted. Refuses at the
    /// cap rather than dropping the oldest favorite.
    pub fn toggle_favorite(&mut self, item_id: u32) -> (r: AppResult<AppConfig>)
        ensures
            ({
                let c = old(self)@;
                if c.favorite_item_ids.contains(item_id) {
                    &&& r matches Ok(n) && n@ == final(self)@
                    &&& final(self)@ == with_favorites(
                        c,
                        c.favorite_item_ids.filter(not_item(item_id)),
                    )
                } else if c.favorite_item_ids.len() >= MAX_FAVORITE_ITEMS {
                    &&& r matches Err(e) && e.is_invalid_with(max_favorites_message())
                    &&& final(self)@ == c
                } else {
                    &&& r matches Ok(n) && n@ == final(self)@
                    &&& final(self)@ == with_favorites(
                        c,
                        seq![item_id] + c.favorite_item_ids,
                    )
                }
            }),
    {
        if self.config.is_favorite(item_id) {
            let ghost old_ids = self@.favorite_item_ids;
            let mut ids: Vec<u32> = Vec::new();
            let mut i: usize = 0;
            while i < self.config.favorite_item_ids.len()
                invariant
                    old_ids == self@.favorite_item_ids,
                    i <= old_ids.len(),
                    ids@ == old_ids.take(i as int).filter(not_item(item_id)),
                decreases old_ids.len() - i,
            {
                proof {
                    assert(old_ids.take(i + 1) =~= old_ids.take(i as int).push(old_ids[i as int]));
                    old_ids.take(i as int).lemma_filter_push(old_ids[i as int], not_item(item_id));
                }
                let x = self.config.favorite_item_ids[i];
                if x != item_id {
                    ids.push(x);
                }
                i += 1;
            }
            assert(old_ids.take(old_ids.len() as int) =~= old_ids);
            self.config.favorite_item_ids = ids;
            return Ok(self.config.clone());
        }
        if self.config.favorite_item_ids.len() >= MAX_FAVORITE_ITEMS {
            let mut m = String::new();
            push_decimal(&mut m, MAX_FAVORITE_ITEMS as u64);
            m.append(" favorites is the maximum - remove one first");
            return Err(AppError::Invalid(m));
        }
        let ghost old_ids = self@.favorite_item_ids;
        self.config.favorite_item_ids.insert(0, item_id);
        assert(self@.favorite_item_ids =~= seq![item_id] + old_ids);
        Ok(self.config.clone())
    }
}

/// No two boards share an id.
pub open spec fn distinct_board_ids(boards: Seq<BoardModel>) -> bool {
    forall|i: int, j: int| 0 <= i < j < boards.len() ==> boards[i].id != boards[j].id
}

proof fn lemma_filter_keeps_all<A>(s: Seq<A>, pred: spec_fn(A) -> bool)
    requires
        forall|i: int| 0 <= i < s.len() ==> pred(#[trigger] s[i]),
    ensures
        s.filter(pred) == s,
    decreases s.len(),
{
    if s.len() > 0 {
        let rest = s.drop_last();
        lemma_filter_keeps_all(rest, pred);
        rest.lemma_filter_push(s.last(), pred);
        assert(rest.push(s.last()) =~= s);
    } else {
        reveal(Seq::filter);
    }
}

proof fn lemma_filter_drops_one_board(boards: Seq<BoardModel>, id: Seq<char>)
    requires
        distinct_board_ids(boards),
        has_board(boards, id),
    ensures
        boards.filter(not_board(id)).len() == boards.len() - 1,
    decreases boards.len(),
{
    let rest = boards.drop_last();
    let last = boards.last();
    rest.lemma_filter_push(last, not_board(id));
    assert(rest.push(last) =~= boards);
    if last.id == id {
        assert forall|i: int| 0 <= i < rest.len() implies (not_board(id))(#[trigger] rest[i]) by {
            assert(boards[i].id != boards[boards.len() - 1].id);
        }
        lemma_filter_keeps_all(rest, not_board(id));
    } else {
        let k = choose|k: int| 0 <= k < boards.len() && boards[k].id == id;
        assert(rest[k].id == id);
        lemma_filter_drops_one_board(rest, id);
    }
}

proof fn lemma_filter_no_duplicates<A>(s: Seq<A>, pred: spec_fn(A) -> bool)
    requires
        s.no_duplicates(),
    ensures
        s.filter(pred).no_duplicates(),
    decreases s.len(),
{
    if s.len() == 0 {
        reveal(Seq::filter);
    } else {
        let rest = s.drop_last();
        let last = s.last();
        assert(rest.push(last) =~= s);
        rest.lemma_filter_push(last, pred);
        lemma_filter_no_duplicates(rest, pred);
        if pred(last) && rest.filter(pred).contains(last) {
            rest.lemma_filter_contains_rev(pred, last);
            let i = choose|i: int| 0 <= i < rest.len() && rest[i] == last;
            assert(s[i] == s[s.len() - 1]);
        }
    }
}

proof fn lemma_least_free_number(boards: Seq<BoardModel>, m: nat)
    requires
        m >= 1,
        !has_board(boards, board_id_spec(m)),
    ensures
        is_free_board_number(boards, free_board_number(boards)),
    decreases m,
{
    if forall|k: nat| 1 <= k < m ==> has_board(boards, board_id_spec(k)) {
        assert(is_free_board_number(boards, m));
    } else {
        let k = choose|k: nat| 1 <= k < m && !has_board(boards, board_id_spec(k));
        lemma_least_free_number(boards, k);
    }
}

/// However a config was saved, once made ready it has between one and
/// `MAX_BOARDS` boards and no leftover single-world field.
pub proof fn law_ready_config_has_boards(c: ConfigModel)
    ensures
        1 <= migrate_spec(c).boards.len() <= MAX_BOARDS,
        migrate_spec(c).legacy_scope is None,
{
}

/// Making a config ready twice is making it ready once: a store built from
/// another store's settings holds the same settings, so they survive a
/// reload.
pub proof fn law_ready_config_is_stable(c: ConfigModel)
    ensures
        migrate_spec(migrate_spec(c)) == migrate_spec(c),
{
    let m = migrate_spec(c);
    assert(migrate_spec(m).boards =~= m.boards);
}

/// With distinct board ids and between one and `MAX_BOARDS` boards, every
/// board operation keeps the count in range and the ids distinct: pointing
/// a board elsewhere keeps the count, adding one below the cap stays within
/// it under an unused id, and closing one of several leaves at least one.
pub proof fn law_boards_stay_in_range(c: ConfigModel, id: Seq<char>, scope: Seq<char>, new_scope: Option<Seq<char>>)
    requires
        1 <= c.boards.len() <= MAX_BOARDS,
        distinct_board_ids(c.boards),
    ensures
        has_board(c.boards, id) ==> set_scope_spec(c, id, scope).boards.len() == c.boards.len()
            && distinct_board_ids(set_scope_spec(c, id, scope).boards),
        c.boards.len() < MAX_BOARDS ==> ({
            let added = c.boards.push(
                BoardModel { id: board_id_spec(free_board_number(c.boards)), scope: new_scope },
            );
            &&& added.len() <= MAX_BOARDS
            &&& !has_board(c.boards, board_id_spec(free_board_number(c.boards)))
            &&& distinct_board_ids(added)
        }),
        has_board(c.boards, id) && c.boards.len() > 1 ==> c.boards.filter(not_board(id)).len() >= 1,
{
    if has_board(c.boards, id) {
        lemma_has_board(c.boards, id);
        let p = board_position(c.boards, id);
        let u = set_scope_spec(c, id, scope).boards;
        assert forall|i: int, j: int| 0 <= i < j < u.len() implies u[i].id != u[j].id by {
            assert(c.boards[i].id != c.boards[j].id);
        }
        if c.boards.len() > 1 {
            lemma_filter_drops_one_board(c.boards, id);
        }
    }
    if c.boards.len() < MAX_BOARDS {
        lemma_some_id_free(c.boards);
        let m = choose|m: nat| 1 <= m <= c.boards.len() + 1 && !has_board(c.boards, board_id_spec(m));
        lemma_least_free_number(c.boards, m);
        let fresh = board_id_spec(free_board_number(c.boards));
        let added = c.boards.push(BoardModel { id: fresh, scope: new_scope });
        assert forall|i: int, j: int| 0 <= i < j < added.len() implies added[i].id != added[j].id by {
            if j == c.boards.len() {
                assert(c.boards[i].id != fresh);
            }
        }
    }
}

/// Viewing an item puts it first, exactly once, in a list of at most
/// `MAX_RECENT_ITEMS`; a list without repeats stays without them.
pub proof fn law_recents_newest_first(recents: Seq<u32>, id: u32)
    ensures
        push_recent_spec(recents, id)[0] == id,
        forall|k: int|
            1 <= k < push_recent_spec(recents, id).len() ==> #[trigger] push_recent_spec(recents, id)[k]
                != id,
        1 <= push_recent_spec(recents, id).len() <= MAX_RECENT_ITEMS,
        recents.no_duplicates() ==> push_recent_spec(recents, id).no_duplicates(),
{
    let f = recents.filter(not_item(id));
    let r = seq![id] + f;
    let out = push_recent_spec(recents, id);
    assert forall|k: int| 1 <= k < out.len() implies #[trigger] out[k] != id by {
        assert(out[k] == f[k - 1]);
        recents.lemma_filter_pred(not_item(id), k - 1);
    }
    if recents.no_duplicates() {
        lemma_filter_no_duplicates(recents, not_item(id));
        assert forall|a: int, b: int| 0 <= a < b < out.len() implies out[a] != out[b] by {
            if a == 0 {
                assert(out[b] == f[b - 1]);
                recents.lemma_filter_pred(not_item(id), b - 1);
            } else {
                assert(out[a] == f[a - 1]);
                assert(out[b] == f[b - 1]);
            }
        }
    }
}

/// Viewing an item keeps the newest entries and drops only the oldest: the
/// list becomes the item followed by the earlier list without it, cut to
/// `MAX_RECENT_ITEMS` from the end. So an item seen for the first time on a
/// short list of distinct items is simply put in front of it.
pub proof fn law_recents_drop_only_the_oldest(recents: Seq<u32>, id: u32)
    ensures
        ({
            let others = recents.filter(not_item(id));
            let out = push_recent_spec(recents, id);
            &&& out.len() == if others.len() + 1 > MAX_RECENT_ITEMS {
                MAX_RECENT_ITEMS as int
            } else {
                others.len() + 1int
            }
            &&& out[0] == id
            &&& forall|k: int| 1 <= k < out.len() ==> #[trigger] out[k] == others[k - 1]
        }),
        !recents.contains(id) && recents.len() < MAX_RECENT_ITEMS ==> push_recent_spec(recents, id)
            == seq![id] + recents,
{
    let others = recents.filter(not_item(id));
    let out = push_recent_spec(recents, id);
    assert forall|k: int| 1 <= k < out.len() implies #[trigger] out[k] == others[k - 1] by {
        assert((seq![id] + others)[k] == others[k - 1]);
    }
    if !recents.contains(id) && recents.len() < MAX_RECENT_ITEMS {
        assert forall|i: int| 0 <= i < recents.len() implies (not_item(id))(#[trigger] recents[i]) by {
            if recents[i] == id {
                assert(recents.contains(id));
            }
        }
        lemma_filter_keeps_all(recents, not_item(id));
        assert(out =~= seq![id] + recents);
    }
}

/// Hearting an item that was not hearted and then un-hearting it leaves
/// the favorites as they were.
pub proof fn law_favorite_toggle_undoes(c: ConfigModel, id: u32)
    requires
        !c.favorite_item_ids.contains(id),
    ensures
        (seq![id] + c.favorite_item_ids).contains(id),
        with_favorites(
            with_favorites(c, seq![id] + c.favorite_item_ids),
            (seq![id] + c.favorite_item_ids).filter(not_item(id)),
        ) == c,
{
    let f = c.favorite_item_ids;
    assert((seq![id] + f)[0] == id);
    f.lemma_filter_prepend(id, not_item(id));
    assert forall|i: int| 0 <= i < f.len() implies (not_item(id))(#[trigger] f[i]) by {
        if f[i] == id {
            assert(f.contains(id));
        }
    }
    lemma_filter_keeps_all(f, not_item(id));
    assert((seq![id] + f).filter(not_item(id)) =~= f);
}

/// Recently viewed items and hearted items never touch each other:
/// changing one list leaves the other as it was.
pub proof fn law_recents_and_favorites_independent(c: ConfigModel, ids: Seq<u32>)
    ensures
        with_recents(c, ids).favorite_item_ids == c.favorite_item_ids,
        with_favorites(c, ids).recent_item_ids == c.recent_item_ids,
        with_recents(c, ids).boards == c.boards,
        with_favorites(c, ids).boards == c.boards,
{
}

} // verus!
