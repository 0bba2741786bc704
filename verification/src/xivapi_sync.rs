//! Building the item catalog from the XIVAPI `Item` sheet plus the
//! Universalis list of tradable ids.
//!
//! The network work happens elsewhere; this module decides what to ask for
//! next, turns sheet rows into catalog rows, and applies marketability.
//! The sheet is walked page by page with `after = last row id seen`, and the
//! walk ends on the first page shorter than `PAGE_SIZE`.

use vstd::prelude::*;
use crate::catalog::{ItemRow, ItemRowModel};
use crate::config::opt_view;
use crate::error::{AppError, AppResult};
use crate::text::{decimal_spec, push_decimal, trim, trim_spec};
use vstd::string::StringExecFns;
use vstd::string::StrSliceExecFns;

verus! {

broadcast use vstd::std_specs::hash::group_hash_axioms;

/// Where XIVAPI v2 lives.
pub const XIVAPI_BASE: &'static str = "https://v2.xivapi.com";

/// XIVAPI caps `limit` at 500.
pub const PAGE_SIZE: u32 = 500;

/// Row ids are sparse, so a short page is the only reliable end-of-sheet
/// signal; this only guards against a walk that never ends.
pub const MAX_PAGES: u32 = 400;

/// The only fields asked for. `@as(raw)` returns the item level as a bare
/// number instead of expanding the whole ItemLevel row.
pub const ITEM_FIELDS: &'static str = "Name,Icon.path,LevelItem@as(raw),ItemUICategory.Name";

/// Why a sync refuses to write a catalog when Universalis lists nothing.
pub const NO_MARKETABLE: &'static str =
    "marketable item list came back empty; refusing to write a catalog with no tradable items";

/// Why a walk that never saw a short page is abandoned.
pub const GAVE_UP: &'static str = "gave up after 400 pages; the sheet is larger than expected";

/// Progress ticks, reported as a sync runs.
#[derive(Debug, Clone, Copy, PartialEq, Eq)]
pub enum SyncProgress {
    /// Items pulled from XIVAPI so far.
    FetchedItems(usize),
    /// Marketable ids pulled from Universalis.
    FetchedMarketable(usize),
    /// Rows written to the catalog.
    Wrote(usize),
}

/// What a finished sync wrote.
#[derive(Debug, Clone, Copy, PartialEq, Eq)]
pub struct SyncSummary {
    pub total_items: usize,
    pub marketable_items: usize,
}

/// The `Icon` field of a sheet row.
#[derive(Debug)]
pub struct IconField {
    pub path: Option<String>,
}

/// The `Name` of a linked `ItemUICategory` row.
#[derive(Debug)]
pub struct CategoryName {
    pub name: String,
}

/// The `ItemUICategory` field of a sheet row.
#[derive(Debug)]
pub struct CategoryField {
    pub fields: CategoryName,
}

/// The fields asked for on each `Item` row; absent ones are empty or `None`.
#[derive(Debug)]
pub struct SheetFields {
    pub name: String,
    pub icon: Option<IconField>,
    pub level_item: Option<u32>,
    pub category: Option<CategoryField>,
}

/// One row of the `Item` sheet.
#[derive(Debug)]
pub struct SheetRow {
    pub row_id: u32,
    pub fields: SheetFields,
}

/// One page of the `Item` sheet.
#[derive(Debug)]
pub struct SheetPage {
    pub version: Option<String>,
    pub rows: Vec<SheetRow>,
}

/// The icon path of a row, when it names a non-empty one.
pub open spec fn icon_path_of(icon: Option<IconField>) -> Option<Seq<char>> {
    match icon {
        Some(i) => match i.path {
            Some(p) => if p@.len() > 0 {
                Some(p@)
            } else {
                None
            },
            None => None,
        },
        None => None,
    }
}

/// The category name of a row, when it is more than whitespace. The name is
/// kept as it came.
pub open spec fn category_of(category: Option<CategoryField>) -> Option<Seq<char>> {
    match category {
        Some(c) => if trim_spec(c.fields.name@).len() > 0 {
            Some(c.fields.name@)
        } else {
            None
        },
        None => None,
    }
}

/// The catalog row a sheet row becomes: none for a row whose name is blank
/// (the sheet is padded with unnamed placeholders), else the row with its
/// name trimmed, not yet marked marketable.
pub open spec fn row_item(row: SheetRow) -> Option<ItemRowModel> {
    if trim_spec(row.fields.name@).len() == 0 {
        None
    } else {
        Some(
            ItemRowModel {
                item_id: row.row_id,
                name: trim_spec(row.fields.name@),
                icon_path: icon_path_of(row.fields.icon),
                level_item: row.fields.level_item,
                category_name: category_of(row.fields.category),
                marketable: false,
            },
        )
    }
}

/// The catalog rows of `rows`, in order, blank ones dropped.
pub open spec fn rows_items(rows: Seq<SheetRow>) -> Seq<ItemRowModel>
    decreases rows.len(),
{
    if rows.len() == 0 {
        Seq::empty()
    } else {
        rows_items(rows.drop_last()) + match row_item(rows.last()) {
            Some(m) => seq![m],
            None => Seq::empty(),
        }
    }
}

/// The views of a sequence of rows.
pub open spec fn rows_view(rows: Seq<ItemRow>) -> Seq<ItemRowModel> {
    rows.map_values(|r: ItemRow| r@)
}

/// Turn a sheet row into a catalog row, or `None` for a blank placeholder.
pub fn row_to_item(row: SheetRow) -> (r: Option<ItemRow>)
    ensures
        r matches Some(item) ==> row_item(row) == Some(item@),
        r is None ==> row_item(row) is None,
{
    let ghost given = row;
    let SheetRow { row_id, fields } = row;
    let SheetFields { name, icon, level_item, category } = fields;
    let trimmed = trim(name.as_str());
    if trimmed.is_empty() {
        return None;
    }
    let icon_path = match icon {
        Some(i) => match i.path {
            Some(p) => if p.as_str().unicode_len() == 0 {
                None
            } else {
                Some(p)
            },
            None => None,
        },
        None => None,
    };
    let category_name = match category {
        Some(c) => if trim(c.fields.name.as_str()).is_empty() {
            None
        } else {
            Some(c.fields.name)
        },
        None => None,
    };
    let item = ItemRow {
        item_id: row_id,
        name: String::from_str(trimmed),
        icon_path,
        level_item,
        category_name,
        marketable: false,
    };
    assert(item@ == row_item(given).unwrap());
    Some(item)
}

/// What a walk over the sheet knows so far.
pub struct WalkModel {
    pub items: Seq<ItemRowModel>,
    pub after: Option<u32>,
    pub pages: nat,
    pub version: Option<Seq<char>>,
    pub finished: bool,
}

/// A walk over the `Item` sheet, one page at a time.
pub struct SheetWalk {
    items: Vec<ItemRow>,
    after: Option<u32>,
    pages: u32,
    version: Option<String>,
    finished: bool,
}

impl View for SheetWalk {
    type V = WalkModel;

    closed spec fn view(&self) -> WalkModel {
        WalkModel {
            items: rows_view(self.items@),
            after: self.after,
            pages: self.pages as nat,
            version: opt_view(self.version),
            finished: self.finished,
        }
    }
}

/// What a walk does next.
#[derive(Debug, PartialEq, Eq)]
pub enum WalkStep {
    /// Ask for the page that starts after this row id (from the top for
    /// `None`).
    Fetch(Option<u32>),
    /// A short page came back: the sheet is read.
    Finished,
    /// `MAX_PAGES` pages came back full: stop and report it.
    GaveUp,
}

/// The step a walk in state `w` takes next.
pub open spec fn next_step(w: WalkModel) -> WalkStep {
    if w.finished {
        WalkStep::Finished
    } else if w.pages >= MAX_PAGES {
        WalkStep::GaveUp
    } else {
        WalkStep::Fetch(w.after)
    }
}

/// The walk after absorbing `page`.
pub open spec fn absorb_spec(w: WalkModel, page: SheetPage) -> WalkModel {
    WalkModel {
        items: w.items + rows_items(page.rows@),
        after: if page.rows@.len() > 0 {
            Some(page.rows@.last().row_id)
        } else {
            w.after
        },
        pages: w.pages + 1,
        version: if w.version is Some {
            w.version
        } else {
            opt_view(page.version)
        },
        finished: page.rows@.len() < PAGE_SIZE,
    }
}

impl SheetWalk {
    #[verifier::type_invariant]
    spec fn bounded(self) -> bool {
        self.pages <= MAX_PAGES
    }

    /// A walk that has fetched nothing yet.
    pub fn new() -> (r: Self)
        ensures
            r@ == (WalkModel {
                items: Seq::empty(),
                after: None,
                pages: 0,
                version: None,
                finished: false,
            }),
    {
        let r = SheetWalk { items: Vec::new(), after: None, pages: 0, version: None, finished: false };
        assert(rows_view(r.items@) =~= Seq::<ItemRowModel>::empty());
        r
    }

    /// What to do next: fetch another page, or stop.
    pub fn next(&self) -> (r: WalkStep)
        ensures
            r == next_step(self@),
    {
        if self.finished {
            WalkStep::Finished
        } else if self.pages >= MAX_PAGES {
            WalkStep::GaveUp
        } else {
            WalkStep::Fetch(self.after)
        }
    }

    /// Take in the page that `next` asked for. Returns how many items the
    /// walk holds now, for progress reporting.
    pub fn absorb(&mut self, page: SheetPage) -> (count: usize)
        requires
            next_step(old(self)@) is Fetch,
        ensures
            final(self)@ == absorb_spec(old(self)@, page),
            count == final(self)@.items.len(),
    {
        proof {
            use_type_invariant(&*self);
        }
        let ghost old_items = self.items@;
        let SheetPage { version, rows } = page;
        let row_count = rows.len();
        let mut after = self.after;
        if row_count > 0 {
            after = Some(rows[row_count - 1].row_id);
        }
        let mut items: Vec<ItemRow> = Vec::new();
        std::mem::swap(&mut items, &mut self.items);
        let ghost all_rows = rows@;
        let mut taken: Vec<ItemRow> = Vec::new();
        for row in it: rows.into_iter()
            invariant
                it.seq() == all_rows,
                rows_view(taken@) == rows_items(all_rows.take(it.index() as int)),
        {
            let ghost i = it.index() as int;
            proof {
                assert(row == all_rows[i]);
                assert(all_rows.take(i + 1).drop_last() =~= all_rows.take(i));
                assert(all_rows.take(i + 1).last() == row);
            }
            let ghost taken_before = taken@;
            match row_to_item(row) {
                Some(item) => {
                    taken.push(item);
                    assert(rows_view(taken@) =~= rows_view(taken_before).push(item@));
                },
                None => {},
            }
            assert(rows_view(taken@) =~= rows_items(all_rows.take(i + 1)));
        }
        assert(all_rows.take(all_rows.len() as int) =~= all_rows);
        items.append(&mut taken);
        assert(rows_view(items@) =~= rows_view(old_items) + rows_items(all_rows));
        self.items = items;
        self.after = after;
        self.pages = self.pages + 1;
        if self.version.is_none() {
            self.version = version;
        }
        self.finished = row_count < PAGE_SIZE as usize;
        self.items.len()
    }

    /// The catalog rows and game version a finished walk found, or the
    /// error for a walk that gave up.
    pub fn into_result(self) -> (r: AppResult<(Vec<ItemRow>, Option<String>)>)
        requires
            !(next_step(self@) is Fetch),
        ensures
            self@.finished ==> (r matches Ok((items, version)) && rows_view(items@) == self@.items
                && opt_view(version) == self@.version),
            !self@.finished ==> (r matches Err(e) && e is XivApi && e.detail() == GAVE_UP@),
    {
        if self.finished {
            Ok((self.items, self.version))
        } else {
            Err(AppError::XivApi(String::from_str(GAVE_UP)))
        }
    }
}

/// The URL of the sheet page that starts after row `after`.
pub open spec fn page_url_spec(after: Option<u32>) -> Seq<char> {
    let base = XIVAPI_BASE@ + "/api/sheet/Item?fields="@ + ITEM_FIELDS@ + "&limit="@ + decimal_spec(
        PAGE_SIZE as nat,
    );
    match after {
        Some(a) => base + "&after="@ + decimal_spec(a as nat),
        None => base,
    }
}

/// The URL of the sheet page that starts after row `after`.
pub fn page_url(after: Option<u32>) -> (r: String)
    ensures
        r@ == page_url_spec(after),
{
    let mut url = String::from_str(XIVAPI_BASE);
    url.append("/api/sheet/Item?fields=");
    url.append(ITEM_FIELDS);
    url.append("&limit=");
    push_decimal(&mut url, PAGE_SIZE as u64);
    match after {
        Some(a) => {
            url.append("&after=");
            push_decimal(&mut url, a as u64);
        },
        None => {},
    }
    url
}

/// What an HTTP status from XIVAPI means: success for 2xx, else the code.
pub fn check_page_status(status: u16) -> (r: AppResult<()>)
    ensures
        200 <= status <= 299 ==> r is Ok,
        !(200 <= status <= 299) ==> (r matches Err(e) && e is XivApi && e.detail()
            == "server replied "@ + decimal_spec(status as nat)),
{
    if status < 200 || status > 299 {
        let mut m = String::from_str("server replied ");
        push_decimal(&mut m, status as u64);
        return Err(AppError::XivApi(m));
    }
    Ok(())
}

/// A page request that never got an answer.
pub fn page_transport_error(timed_out: bool, detail: &str) -> (e: AppError)
    ensures
        e is XivApi,
        timed_out ==> e.detail() == "request timed out"@,
        !timed_out ==> e.detail() == detail@,
{
    if timed_out {
        AppError::XivApi(String::from_str("request timed out"))
    } else {
        AppError::XivApi(String::from_str(detail))
    }
}

/// `rows` with each one marked marketable exactly when its id is listed.
pub open spec fn mark_spec(rows: Seq<ItemRowModel>, ids: Seq<u32>) -> Seq<ItemRowModel> {
    rows.map_values(|r: ItemRowModel| ItemRowModel { marketable: ids.contains(r.item_id), ..r })
}

/// How many of `rows` are marketable.
pub open spec fn marketable_count(rows: Seq<ItemRowModel>) -> nat
    decreases rows.len(),
{
    if rows.len() == 0 {
        0
    } else {
        marketable_count(rows.drop_last()) + if rows.last().marketable {
            1nat
        } else {
            0nat
        }
    }
}

proof fn lemma_marketable_count_bound(rows: Seq<ItemRowModel>)
    ensures
        marketable_count(rows) <= rows.len(),
    decreases rows.len(),
{
    if rows.len() > 0 {
        lemma_marketable_count_bound(rows.drop_last());
    }
}

/// Mark each fetched row with whether Universalis lists it as tradable, and
/// count both totals. An empty list is refused: it means Universalis failed,
/// not that nothing can be traded.
pub fn mark_marketable(items: Vec<ItemRow>, marketable: &[u32]) -> (r: AppResult<
    (Vec<ItemRow>, SyncSummary),
>)
    ensures
        marketable@.len() == 0 ==> (r matches Err(e) && e is Universalis && e.detail()
            == NO_MARKETABLE@),
        marketable@.len() > 0 ==> (r matches Ok((rows, summary)) && rows_view(rows@) == mark_spec(
            rows_view(items@),
            marketable@,
        ) && summary.total_items == rows@.len() && summary.marketable_items == marketable_count(
            rows_view(rows@),
        )),
{
    if marketable.len() == 0 {
        return Err(AppError::Universalis(String::from_str(NO_MARKETABLE)));
    }
    let mut ids: std::collections::HashSet<u32> = std::collections::HashSet::new();
    proof {
        assert(vstd::std_specs::hash::obeys_key_model::<u32>());
        assert(vstd::std_specs::hash::builds_valid_hashers::<std::hash::RandomState>());
        assert(marketable@.take(0).to_set() =~= Set::<u32>::empty());
    }
    let mut j: usize = 0;
    while j < marketable.len()
        invariant
            j <= marketable@.len(),
            ids@ == marketable@.take(j as int).to_set(),
            vstd::std_specs::hash::obeys_key_model::<u32>(),
            vstd::std_specs::hash::builds_valid_hashers::<std::hash::RandomState>(),
        decreases marketable@.len() - j,
    {
        ids.insert(marketable[j]);
        assert(marketable@.take(j + 1) =~= marketable@.take(j as int).push(marketable@[j as int]));
        proof {
            marketable@.take(j as int).lemma_push_to_set_commute(marketable@[j as int]);
        }
        j += 1;
    }
    assert(marketable@.take(j as int) =~= marketable@);
    let ghost source = rows_view(items@);
    let ghost all_items = items@;
    assert(all_items.len() == items.len());
    let mut rows: Vec<ItemRow> = Vec::new();
    let mut count: usize = 0;
    for row in it: items.into_iter()
        invariant
            ids@ == marketable@.to_set(),
            vstd::std_specs::hash::obeys_key_model::<u32>(),
            vstd::std_specs::hash::builds_valid_hashers::<std::hash::RandomState>(),
            it.seq() == all_items,
            all_items.len() <= usize::MAX,
            source == rows_view(all_items),
            rows@.len() == it.index(),
            rows_view(rows@) == mark_spec(source.take(it.index() as int), marketable@),
            count == marketable_count(rows_view(rows@)),
            count <= rows@.len(),
    {
        let ghost before = rows@;
        assert(before.len() < all_items.len());
        proof {
            assert(row == all_items[before.len() as int]);
            assert(row@ == source[before.len() as int]);
        }
        let listed = ids.contains(&row.item_id);
        if listed {
            count += 1;
        }
        rows.push(ItemRow { marketable: listed, ..row });
        proof {
            let m = before.len() as int;
            assert(source.take(m + 1) =~= source.take(m).push(source[m]));
            assert(rows_view(rows@) =~= rows_view(before).push(rows@.last()@));
            assert(rows_view(rows@) =~= mark_spec(source.take(m + 1), marketable@));
            assert(rows_view(rows@).drop_last() =~= rows_view(before));
            lemma_marketable_count_bound(rows_view(rows@));
        }
    }
    assert(source.take(source.len() as int) =~= source);
    let summary = SyncSummary { total_items: rows.len(), marketable_items: count };
    Ok((rows, summary))
}

/// A sheet row never becomes a catalog row with a blank name, an empty icon
/// path or a blank category, and never arrives already marked marketable.
pub proof fn law_rows_carry_no_blanks(row: SheetRow)
    ensures
        row_item(row) matches Some(m) ==> {
            &&& m.name.len() > 0
            &&& m.item_id == row.row_id
            &&& (m.icon_path matches Some(p) ==> p.len() > 0)
            &&& (m.category_name matches Some(c) ==> trim_spec(c).len() > 0)
            &&& !m.marketable
        },
{
}

/// A walk asks for at most `MAX_PAGES` pages, stops on the first short
/// page, and only ever adds rows after those it already holds.
pub proof fn law_walk_ends(w: WalkModel, page: SheetPage)
    ensures
        next_step(w) is Fetch ==> w.pages < MAX_PAGES,
        page.rows@.len() < PAGE_SIZE ==> next_step(absorb_spec(w, page)) == WalkStep::Finished,
        absorb_spec(w, page).items.take(w.items.len() as int) == w.items,
{
    assert(absorb_spec(w, page).items.take(w.items.len() as int) =~= w.items);
}

/// Marking keeps every row and its order; only `marketable` changes, set
/// exactly for the listed ids, and the marketable count never exceeds the
/// total.
pub proof fn law_marking_keeps_rows(rows: Seq<ItemRowModel>, ids: Seq<u32>)
    ensures
        mark_spec(rows, ids).len() == rows.len(),
        forall|k: int|
            0 <= k < rows.len() ==> {
                let m = #[trigger] mark_spec(rows, ids)[k];
                &&& m.item_id == rows[k].item_id
                &&& m.name == rows[k].name
                &&& m.marketable == ids.contains(rows[k].item_id)
            },
        marketable_count(mark_spec(rows, ids)) <= rows.len(),
{
    lemma_marketable_count_bound(mark_spec(rows, ids));
}

} // verus!
