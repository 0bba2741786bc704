use ffxiv_market_overlay::catalog::{is_usable_catalog, parse_i64, Item, SCHEMA_VERSION};
use ffxiv_market_overlay::error::AppError;

#[test]
fn is_usable_catalog_rejects_empty_and_missing() {
    // A missing file yields neither a schema version nor a row count.
    assert!(!is_usable_catalog(None, None));
    // Schema but no rows is not usable.
    assert!(!is_usable_catalog(Some("1"), Some(0)), "schema but no rows is not usable");
    assert!(is_usable_catalog(Some("1"), Some(1)));
}

#[test]
fn another_schema_version_is_not_usable() {
    assert_eq!(SCHEMA_VERSION, 1);
    assert!(!is_usable_catalog(Some("2"), Some(10)));
    assert!(!is_usable_catalog(Some("one"), Some(10)));
    assert!(!is_usable_catalog(Some("1"), None));
    assert!(is_usable_catalog(Some("+1"), Some(10)));
}

#[test]
fn integers_parse_as_the_standard_library_does() {
    assert_eq!(parse_i64("42"), Some(42));
    assert_eq!(parse_i64("-7"), Some(-7));
    assert_eq!(parse_i64("+7"), Some(7));
    assert_eq!(parse_i64("9223372036854775807"), Some(i64::MAX));
    assert_eq!(parse_i64("-9223372036854775808"), Some(i64::MIN));
    assert_eq!(parse_i64("9223372036854775808"), None);
    assert_eq!(parse_i64(""), None);
    assert_eq!(parse_i64("-"), None);
    assert_eq!(parse_i64(" 1"), None);
    assert_eq!(parse_i64("1a"), None);
    for s in ["0", "-0", "123456789", "-98765", "00012"] {
        assert_eq!(parse_i64(s), s.parse::<i64>().ok());
    }
}

#[test]
fn items_clone_field_for_field() {
    let item = Item {
        item_id: 5057,
        name: "Cobalt Ingot".to_string(),
        icon_path: Some("ui/icon/020000/020801.tex".to_string()),
        level_item: Some(50),
        category_name: None,
    };
    assert_eq!(item.clone(), item);
}

#[test]
fn every_error_kind_has_its_tag_and_message() {
    let cases = [
        (AppError::Catalog("gone".into()), "catalog", "item catalog unavailable: gone"),
        (AppError::Universalis("down".into()), "universalis", "couldn't reach Universalis: down"),
        (AppError::XivApi("down".into()), "xivapi", "couldn't reach XIVAPI: down"),
        (AppError::Config("disk full".into()), "config", "settings could not be saved: disk full"),
        (AppError::Invalid("bad".into()), "invalid", "bad"),
        (AppError::Internal("oops".into()), "internal", "oops"),
    ];
    for (error, kind, message) in cases {
        assert_eq!(error.kind(), kind);
        assert_eq!(error.to_string(), message);
    }
}
