use ffxiv_market_overlay::catalog::Item;
use ffxiv_market_overlay::search::{
    SearchIndex, SearchResult, DEFAULT_LIMIT, MAX_NAME_CHARS, MAX_QUERY_CHARS,
};

fn item(id: u32, name: &str) -> Item {
    Item {
        item_id: id,
        name: name.to_string(),
        icon_path: None,
        level_item: None,
        category_name: None,
    }
}

fn index() -> SearchIndex {
    SearchIndex::new(vec![
        item(1, "Potion"),
        item(2, "Hi-Potion"),
        item(3, "Mega-Potion"),
        item(4, "Potion of Dexterity"),
        item(5, "Cobalt Ingot"),
        item(6, "Grade 8 Tincture of Strength"),
        item(7, "Rarefied Cobalt Saw"),
    ])
}

fn names(results: &[SearchResult]) -> Vec<&str> {
    results.iter().map(|r| r.item.name.as_str()).collect()
}

#[test]
fn exact_name_ranks_first() {
    let results = index().search("Potion", DEFAULT_LIMIT);
    assert_eq!(names(&results)[0], "Potion");
}

#[test]
fn hyphenated_query_finds_its_item() {
    let results = index().search("hi-potion", DEFAULT_LIMIT);
    assert_eq!(names(&results)[0], "Hi-Potion");
}

#[test]
fn matching_is_case_insensitive() {
    assert_eq!(
        names(&index().search("COBALT INGOT", DEFAULT_LIMIT))[0],
        "Cobalt Ingot"
    );
}

#[test]
fn partial_and_abbreviated_queries_match() {
    assert_eq!(
        names(&index().search("cobin", DEFAULT_LIMIT))[0],
        "Cobalt Ingot"
    );
    assert_eq!(
        names(&index().search("tinc str", DEFAULT_LIMIT))[0],
        "Grade 8 Tincture of Strength"
    );
}

#[test]
fn a_base_item_outranks_its_longer_variants() {
    let index = SearchIndex::new(vec![
        item(1, "Hi-Potion of Mind"),
        item(2, "Hi-Potion"),
        item(3, "Hi-Potion of Intelligence"),
    ]);
    assert_eq!(
        names(&index.search("hi potion", DEFAULT_LIMIT))[0],
        "Hi-Potion"
    );
}

#[test]
fn length_never_overturns_a_clearly_better_match() {
    let index = SearchIndex::new(vec![item(1, "Cobalt Ingot"), item(2, "Cob")]);
    assert_eq!(
        names(&index.search("cobalt ingot", DEFAULT_LIMIT))[0],
        "Cobalt Ingot"
    );
}

#[test]
fn shorter_name_wins_a_score_tie() {
    let results = index().search("potion", DEFAULT_LIMIT);
    let potion = names(&results).iter().position(|n| *n == "Potion").unwrap();
    let long = names(&results)
        .iter()
        .position(|n| *n == "Potion of Dexterity")
        .unwrap();
    assert!(potion < long);
}

#[test]
fn empty_query_returns_nothing() {
    assert!(index().search("", DEFAULT_LIMIT).is_empty());
    assert!(index().search("   ", DEFAULT_LIMIT).is_empty());
}

#[test]
fn nonsense_query_returns_nothing() {
    assert!(index().search("zzzzqqqxxx", DEFAULT_LIMIT).is_empty());
}

#[test]
fn limit_is_honoured() {
    assert_eq!(index().search("o", 2).len(), 2);
    assert!(index().search("o", 0).is_empty());
}

#[test]
fn get_finds_by_id() {
    let index = index();
    assert_eq!(index.get(5).unwrap().name, "Cobalt Ingot");
    assert!(index.get(999).is_none());
}

#[test]
fn scoring_the_full_corpus_stays_fast() {
    let items: Vec<Item> = (0..20_000)
        .map(|i| item(i, &format!("Synthetic Item Number {i}")))
        .collect();
    let index = SearchIndex::new(items);

    let start = std::time::Instant::now();
    for query in ["syn", "synth", "synthetic", "item 1234", "sin19"] {
        index.search(query, DEFAULT_LIMIT);
    }
    let per_query = start.elapsed() / 5;
    assert!(
        per_query < std::time::Duration::from_millis(250),
        "search took {per_query:?} per query on a 20k corpus"
    );
    println!("search: {per_query:?} per query over 20k items (debug build)");
}

fn ids(results: &[SearchResult]) -> Vec<u32> {
    results.iter().map(|r| r.item.item_id).collect()
}

#[test]
fn blanks_and_letter_case_never_change_the_results() {
    let index = index();
    for query in ["potion", "cobalt ingot", "tinc str", "hi-po"] {
        let plain = ids(&index.search(query, DEFAULT_LIMIT));
        assert_eq!(ids(&index.search(&format!("  {query} "), DEFAULT_LIMIT)), plain);
        assert_eq!(ids(&index.search(&query.to_ascii_uppercase(), DEFAULT_LIMIT)), plain);
    }
}

#[test]
fn the_longest_names_score_without_overflow() {
    assert_eq!(MAX_NAME_CHARS, 2048);
    assert_eq!(MAX_QUERY_CHARS, 131071);
    let late = format!("{}ab", "x".repeat(MAX_NAME_CHARS - 2));
    let dense = "a".repeat(MAX_NAME_CHARS);
    let index = SearchIndex::new(vec![item(1, &late), item(2, &dense)]);
    assert_eq!(ids(&index.search("ab", DEFAULT_LIMIT)), vec![1]);
    assert_eq!(ids(&index.search(&"a".repeat(MAX_NAME_CHARS), DEFAULT_LIMIT)), vec![2]);
}

#[test]
fn names_with_combining_accents_are_matched_by_their_letters() {
    let index = SearchIndex::new(vec![item(1, "Cafe\u{301} Table"), item(2, "Cobalt Ingot")]);
    assert_eq!(ids(&index.search("cafe", DEFAULT_LIMIT)), vec![1]);
}
