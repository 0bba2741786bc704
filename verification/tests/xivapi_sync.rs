use ffxiv_market_overlay::catalog::ItemRow;
use ffxiv_market_overlay::xivapi_sync::{
    check_page_status, mark_marketable, page_transport_error, page_url, row_to_item, CategoryField,
    CategoryName, IconField, SheetFields, SheetPage, SheetRow, SheetWalk, SyncSummary, WalkStep,
    MAX_PAGES, PAGE_SIZE,
};

fn fields(name: &str) -> SheetFields {
    SheetFields { name: name.to_string(), icon: None, level_item: None, category: None }
}

/// The two-row page XIVAPI sends for rows 5 and 6: a real item and an
/// unnamed placeholder.
fn page() -> SheetPage {
    SheetPage {
        version: Some("f5af21155b99a524".to_string()),
        rows: vec![
            SheetRow {
                row_id: 5,
                fields: SheetFields {
                    name: "Earth Shard".to_string(),
                    icon: Some(IconField { path: Some("ui/icon/020000/020006.tex".to_string()) }),
                    level_item: Some(1),
                    category: Some(CategoryField {
                        fields: CategoryName { name: "Crystal".to_string() },
                    }),
                },
            },
            SheetRow {
                row_id: 6,
                fields: SheetFields {
                    name: String::new(),
                    icon: Some(IconField { path: Some(String::new()) }),
                    level_item: Some(0),
                    category: Some(CategoryField { fields: CategoryName { name: String::new() } }),
                },
            },
        ],
    }
}

fn row(id: u32, name: &str) -> ItemRow {
    ItemRow {
        item_id: id,
        name: name.to_string(),
        icon_path: None,
        level_item: None,
        category_name: None,
        marketable: false,
    }
}

#[test]
fn parses_a_sheet_page_and_drops_blank_rows() {
    let page = page();
    assert_eq!(page.version.as_deref(), Some("f5af21155b99a524"));
    assert_eq!(page.rows.len(), 2);

    let items: Vec<ItemRow> = page.rows.into_iter().filter_map(row_to_item).collect();
    assert_eq!(items.len(), 1, "the unnamed placeholder row is dropped");

    let shard = &items[0];
    assert_eq!(shard.item_id, 5);
    assert_eq!(shard.name, "Earth Shard");
    assert_eq!(shard.icon_path.as_deref(), Some("ui/icon/020000/020006.tex"));
    assert_eq!(shard.level_item, Some(1));
    assert_eq!(shard.category_name.as_deref(), Some("Crystal"));
    assert!(!shard.marketable, "marketability is applied later, from Universalis");
}

#[test]
fn tolerates_missing_optional_fields() {
    let page = SheetPage {
        version: None,
        rows: vec![SheetRow { row_id: 9, fields: fields("Mystery") }],
    };
    let item = row_to_item(page.rows.into_iter().next().unwrap()).unwrap();
    assert_eq!(item.name, "Mystery");
    assert_eq!(item.icon_path, None);
    assert_eq!(item.level_item, None);
    assert_eq!(item.category_name, None);
}

#[test]
fn empty_strings_become_none_not_empty_strings() {
    let page = page();
    let mut rows = page.rows.into_iter();
    rows.next();
    assert!(row_to_item(rows.next().unwrap()).is_none());
}

#[test]
fn names_are_trimmed_and_blank_categories_dropped() {
    let item = row_to_item(SheetRow {
        row_id: 12,
        fields: SheetFields {
            name: "  Hi-Potion \n".to_string(),
            icon: Some(IconField { path: None }),
            level_item: Some(20),
            category: Some(CategoryField { fields: CategoryName { name: "  ".to_string() } }),
        },
    })
    .unwrap();
    assert_eq!(item.name, "Hi-Potion");
    assert_eq!(item.icon_path, None);
    assert_eq!(item.category_name, None);
    assert!(row_to_item(SheetRow { row_id: 13, fields: fields(" \t ") }).is_none());
}

#[test]
fn a_category_keeps_its_spelling() {
    let item = row_to_item(SheetRow {
        row_id: 14,
        fields: SheetFields {
            name: "Cobalt Ingot".to_string(),
            icon: None,
            level_item: None,
            category: Some(CategoryField { fields: CategoryName { name: " Metal ".to_string() } }),
        },
    })
    .unwrap();
    assert_eq!(item.category_name.as_deref(), Some(" Metal "));
}

fn full_page(first_id: u32) -> SheetPage {
    let mut rows = Vec::new();
    for i in 0..PAGE_SIZE {
        rows.push(SheetRow { row_id: first_id + i, fields: fields("Item") });
    }
    SheetPage { version: Some("v1".to_string()), rows }
}

#[test]
fn a_walk_starts_from_the_top_and_follows_the_last_row() {
    let mut walk = SheetWalk::new();
    assert_eq!(walk.next(), WalkStep::Fetch(None));
    let count = walk.absorb(full_page(1));
    assert_eq!(count, PAGE_SIZE as usize);
    assert_eq!(walk.next(), WalkStep::Fetch(Some(PAGE_SIZE)));

    let count = walk.absorb(SheetPage { version: Some("v2".to_string()), rows: vec![
        SheetRow { row_id: 9000, fields: fields("Last Item") },
        SheetRow { row_id: 9001, fields: fields("") },
    ] });
    assert_eq!(count, PAGE_SIZE as usize + 1);
    assert_eq!(walk.next(), WalkStep::Finished);

    let (items, version) = walk.into_result().unwrap();
    assert_eq!(items.len(), PAGE_SIZE as usize + 1);
    assert_eq!(items[0].item_id, 1);
    assert_eq!(items.last().unwrap().name, "Last Item");
    assert_eq!(version.as_deref(), Some("v1"), "the first version seen is kept");
}

#[test]
fn an_empty_page_ends_the_walk_and_keeps_the_cursor() {
    let mut walk = SheetWalk::new();
    walk.absorb(full_page(1));
    walk.absorb(SheetPage { version: None, rows: Vec::new() });
    assert_eq!(walk.next(), WalkStep::Finished);
    let (items, version) = walk.into_result().unwrap();
    assert_eq!(items.len(), PAGE_SIZE as usize);
    assert_eq!(version.as_deref(), Some("v1"));
}

#[test]
fn a_walk_that_never_ends_gives_up() {
    let mut walk = SheetWalk::new();
    let mut pages = 0;
    while let WalkStep::Fetch(_) = walk.next() {
        walk.absorb(SheetPage {
            version: None,
            rows: (0..PAGE_SIZE).map(|i| SheetRow { row_id: pages * PAGE_SIZE + i, fields: fields("") }).collect(),
        });
        pages += 1;
    }
    assert_eq!(pages, MAX_PAGES);
    assert_eq!(walk.next(), WalkStep::GaveUp);
    let error = walk.into_result().unwrap_err();
    assert_eq!(error.kind(), "xivapi");
    assert_eq!(
        error.to_string(),
        "couldn't reach XIVAPI: gave up after 400 pages; the sheet is larger than expected"
    );
}

#[test]
fn page_urls_ask_for_the_item_fields() {
    assert_eq!(
        page_url(None),
        "https://v2.xivapi.com/api/sheet/Item?fields=Name,Icon.path,LevelItem@as(raw),ItemUICategory.Name&limit=500"
    );
    assert_eq!(
        page_url(Some(1234)),
        "https://v2.xivapi.com/api/sheet/Item?fields=Name,Icon.path,LevelItem@as(raw),ItemUICategory.Name&limit=500&after=1234"
    );
}

#[test]
fn page_statuses_outside_2xx_are_errors() {
    assert!(check_page_status(200).is_ok());
    assert!(check_page_status(299).is_ok());
    let error = check_page_status(503).unwrap_err();
    assert_eq!(error.kind(), "xivapi");
    assert_eq!(error.to_string(), "couldn't reach XIVAPI: server replied 503");
    assert!(check_page_status(404).is_err());
}

#[test]
fn page_transport_errors_name_a_timeout() {
    assert_eq!(
        page_transport_error(true, "whatever").to_string(),
        "couldn't reach XIVAPI: request timed out"
    );
    assert_eq!(
        page_transport_error(false, "dns failure").to_string(),
        "couldn't reach XIVAPI: dns failure"
    );
}

#[test]
fn marketability_comes_from_the_listed_ids() {
    let rows = vec![row(1, "Hi-Potion"), row(2, "Quest Item"), row(3, "Cobalt Ingot")];
    let (rows, summary) = mark_marketable(rows, &[3, 1, 99]).unwrap();
    assert_eq!(
        rows.iter().map(|r| (r.item_id, r.marketable)).collect::<Vec<_>>(),
        [(1, true), (2, false), (3, true)]
    );
    assert_eq!(summary, SyncSummary { total_items: 3, marketable_items: 2 });
}

#[test]
fn an_empty_marketable_list_is_refused() {
    let error = mark_marketable(vec![row(1, "Hi-Potion")], &[]).unwrap_err();
    assert_eq!(error.kind(), "universalis");
    assert_eq!(
        error.to_string(),
        "couldn't reach Universalis: marketable item list came back empty; refusing to write a catalog with no tradable items"
    );
}
