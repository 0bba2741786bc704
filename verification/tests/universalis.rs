use ffxiv_market_overlay::universalis::{
    check_status, epoch_millis, in_request_order, known_time, listings_from_raw, market_url, now_millis, plan_price_request, same,
    sales_from_raw, transport_error, trim_end_slashes_str, urlencode, DataCenter, MarketScopes,
    PriceRequest, RawListing, RawSale, World, BASE_URL, MAX_IDS_PER_REQUEST,
};

fn scopes() -> MarketScopes {
    MarketScopes {
        worlds: vec![
            World { id: 79, name: "Cactuar".into() },
            World { id: 54, name: "Faerie".into() },
            World { id: 39, name: "Ravana".into() },
        ],
        data_centers: vec![
            DataCenter {
                name: "Aether".into(),
                region: "North-America".into(),
                worlds: vec![79, 54],
            },
            DataCenter {
                name: "Elemental".into(),
                region: "Japan".into(),
                worlds: vec![39],
            },
        ],
    }
}

#[test]
fn a_world_widens_to_its_data_center() {
    assert_eq!(scopes().widen("Cactuar").as_deref(), Some("Aether"));
    assert_eq!(scopes().widen("Ravana").as_deref(), Some("Elemental"));
}

#[test]
fn a_data_center_widens_to_its_region() {
    assert_eq!(scopes().widen("Aether").as_deref(), Some("North-America"));
}

#[test]
fn a_region_has_nowhere_wider_to_go() {
    assert_eq!(scopes().widen("North-America"), None);
}

#[test]
fn widening_tolerates_casing_and_blanks() {
    assert_eq!(scopes().widen(" cactuar ").as_deref(), Some("Aether"));
    assert_eq!(scopes().widen(""), None);
    assert_eq!(scopes().widen("Not A World"), None);
}

#[test]
fn urlencodes_scope_names() {
    assert_eq!(urlencode("Light"), "Light");
    assert_eq!(urlencode("North-America"), "North-America");
    assert_eq!(urlencode("a b"), "a%20b");
}

#[test]
fn urlencode_escapes_every_byte_of_a_non_ascii_name() {
    assert_eq!(urlencode("é"), "%C3%A9");
    assert_eq!(urlencode("a~b_c.d"), "a~b_c.d");
    assert_eq!(urlencode("50%"), "50%25");
}

#[test]
fn a_region_resolves_to_its_first_data_center() {
    assert_eq!(
        scopes().default_data_center("north-america").as_deref(),
        Some("Aether")
    );
    assert_eq!(scopes().default_data_center(" Japan ").as_deref(), Some("Elemental"));
    assert_eq!(scopes().default_data_center("Aether"), None);
    assert_eq!(scopes().default_data_center("Cactuar"), None);
    assert_eq!(scopes().default_data_center("  "), None);
}

fn raw_listing(price: u32, quantity: u32, total: Option<u32>, hq: bool, world: &str, retainer: &str) -> RawListing {
    RawListing {
        price_per_unit: price,
        quantity,
        total,
        hq,
        world_name: Some(world.to_string()),
        retainer_name: Some(retainer.to_string()),
    }
}

fn raw_sale(price: u32, quantity: u32, hq: bool, timestamp: i64, world: &str) -> RawSale {
    RawSale { price_per_unit: price, quantity, hq, timestamp, world_name: Some(world.to_string()) }
}

/// The listings and sale history of the sample market reply for item 4745.
fn sample_listings() -> Vec<RawListing> {
    vec![
        raw_listing(900, 2, Some(1800), true, "Siren", "Bob"),
        raw_listing(100, 1, Some(100), false, "Cactuar", ""),
    ]
}

fn sample_sales() -> Vec<RawSale> {
    vec![raw_sale(120, 1, false, 100, "Siren"), raw_sale(130, 3, true, 200, "Cactuar")]
}

#[test]
fn parses_and_sorts_listings_cheapest_first() {
    let listings = listings_from_raw(&sample_listings());
    assert_eq!(listings.iter().map(|l| l.price_per_unit).collect::<Vec<_>>(), [100, 900]);
    assert_eq!(listings[0].world_name.as_deref(), Some("Cactuar"));
    assert_eq!(listings[0].retainer_name, None, "empty name is dropped");
    assert_eq!(listings[1].retainer_name.as_deref(), Some("Bob"));
}

#[test]
fn sorts_recent_sales_newest_first() {
    let sales = sales_from_raw(&sample_sales());
    assert_eq!(sales.iter().map(|s| s.timestamp).collect::<Vec<_>>(), [200, 100]);
}

#[test]
fn handles_an_item_with_no_market_data() {
    assert!(listings_from_raw(&Vec::new()).is_empty());
    assert!(sales_from_raw(&Vec::new()).is_empty());
    assert_eq!(known_time(None), None);
}

#[test]
fn derives_listing_total_when_absent() {
    let raw = vec![RawListing {
        price_per_unit: 50,
        quantity: 4,
        total: None,
        hq: false,
        world_name: None,
        retainer_name: None,
    }];
    assert_eq!(listings_from_raw(&raw)[0].total, 200);
}

#[test]
fn rejects_an_empty_scope() {
    let err = market_url(BASE_URL, &[4745], "  ").unwrap_err();
    assert_eq!(err.kind(), "invalid");
}

#[test]
fn equal_prices_keep_their_reply_order() {
    let raw = vec![
        raw_listing(100, 1, None, false, "Siren", "First"),
        raw_listing(50, 1, None, false, "Siren", "Cheapest"),
        raw_listing(100, 2, None, true, "Siren", "Second"),
    ];
    let names: Vec<Option<String>> = listings_from_raw(&raw).into_iter().map(|l| l.retainer_name).collect();
    assert_eq!(
        names,
        [Some("Cheapest".to_string()), Some("First".to_string()), Some("Second".to_string())]
    );
}

#[test]
fn sales_at_the_same_moment_keep_their_reply_order() {
    let raw = vec![raw_sale(1, 1, false, 5, "A"), raw_sale(2, 1, false, 9, "B"), raw_sale(3, 1, false, 5, "C")];
    let order: Vec<u32> = sales_from_raw(&raw).into_iter().map(|s| s.price_per_unit).collect();
    assert_eq!(order, [2, 1, 3]);
}

#[test]
fn upload_times_of_zero_mean_none() {
    assert_eq!(known_time(Some(0)), None);
    assert_eq!(known_time(Some(-5)), None);
    assert_eq!(known_time(Some(1789049150363)), Some(1789049150363));
}

#[test]
fn market_urls_name_the_board_and_the_ids() {
    assert_eq!(
        market_url(BASE_URL, &[4745], " Aether ").unwrap(),
        "https://universalis.app/api/v2/Aether/4745?listings=12&entries=12"
    );
    assert_eq!(
        market_url("http://localhost:8080", &[1, 22, 333], "North America").unwrap(),
        "http://localhost:8080/North%20America/1,22,333?listings=12&entries=12"
    );
}

#[test]
fn base_urls_lose_their_trailing_slashes() {
    assert_eq!(trim_end_slashes_str("http://localhost:8080//"), "http://localhost:8080");
    assert_eq!(trim_end_slashes_str(BASE_URL), BASE_URL);
}

#[test]
fn price_requests_are_planned_by_count() {
    assert_eq!(plan_price_request(&[]).unwrap(), PriceRequest::Nothing);
    assert_eq!(plan_price_request(&[7]).unwrap(), PriceRequest::One(7));
    assert_eq!(plan_price_request(&[7, 8]).unwrap(), PriceRequest::Many);
    let too_many: Vec<u32> = (0..(MAX_IDS_PER_REQUEST as u32 + 1)).collect();
    let err = plan_price_request(&too_many).unwrap_err();
    assert_eq!(err.kind(), "invalid");
    assert_eq!(err.to_string(), "at most 100 items per request, got 101");
}

#[test]
fn reply_statuses_are_explained() {
    assert!(check_status(200).is_ok());
    let not_found = check_status(404).unwrap_err();
    assert_eq!(not_found.kind(), "universalis");
    assert_eq!(
        not_found.to_string(),
        "couldn't reach Universalis: unknown world/data center, or no market data for that item"
    );
    assert_eq!(
        check_status(500).unwrap_err().to_string(),
        "couldn't reach Universalis: server replied 500"
    );
}

#[test]
fn transport_failures_are_explained() {
    assert_eq!(
        transport_error(true, true, "x").to_string(),
        "couldn't reach Universalis: request timed out"
    );
    assert_eq!(
        transport_error(false, true, "x").to_string(),
        "couldn't reach Universalis: no network connection"
    );
    assert_eq!(transport_error(false, false, "tls").to_string(), "couldn't reach Universalis: tls");
}

#[test]
fn board_names_compare_trimmed_and_ignoring_case() {
    assert!(same(" Cactuar", "cACTUAR "));
    assert!(!same("Cactuar", "Faerie"));
}

#[test]
fn the_clock_reads_after_the_epoch() {
    assert!(now_millis() > 1_600_000_000_000);
}

#[test]
fn epoch_readings_become_signed_timestamps() {
    assert_eq!(epoch_millis(None), 0);
    assert_eq!(epoch_millis(Some(1_789_049_150_363)), 1_789_049_150_363);
    assert_eq!(epoch_millis(Some(i64::MAX as u128 + 1)), i64::MIN);
}

#[test]
fn multi_item_prices_keep_the_callers_order() {
    let ids = [30, 10, 20, 10];
    let found = vec![Some("thirty"), None, Some("twenty"), None];
    assert_eq!(in_request_order(&ids, found), vec![(30, "thirty"), (20, "twenty")]);
    assert!(in_request_order::<u8>(&[], Vec::new()).is_empty());
}
