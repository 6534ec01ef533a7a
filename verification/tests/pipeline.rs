use linkmod::listing::listing_text_exec;
use linkmod::normalizer::normalize;
use linkmod::orchestrator::{build_candidates, resolve, CatalogResponse, Resolution};
use linkmod::records::{parse_record, RawRecord};
use linkmod::selector::{select, MatchDecision};
use linkmod::text::url_encode;
use linkmod::version::version_at_least_min_exec;

fn raw(name: &str, title: &str, factorio_version: &str) -> RawRecord {
    let mut r = RawRecord::empty();
    r.name = Some(name.to_string());
    r.title = Some(title.to_string());
    r.owner = Some("author".to_string());
    r.factorio_version = Some(factorio_version.to_string());
    r
}

#[test]
fn version_filter_threshold() {
    assert!(!version_at_least_min_exec("0.14"));
    assert!(version_at_least_min_exec("0.15"));
    assert!(version_at_least_min_exec("0.16"));
    assert!(version_at_least_min_exec("0.9"));
    assert!(version_at_least_min_exec("1.1"));
    assert!(version_at_least_min_exec("1"));
    assert!(version_at_least_min_exec("0.150"));
    assert!(!version_at_least_min_exec("0.1"));
    assert!(!version_at_least_min_exec("0.149"));
    assert!(!version_at_least_min_exec("0"));
    assert!(!version_at_least_min_exec(""));
    assert!(!version_at_least_min_exec("garbage"));
    assert!(!version_at_least_min_exec("1.2.3"));
    assert!(!version_at_least_min_exec("."));
    assert!(version_at_least_min_exec("1."));
    assert!(!version_at_least_min_exec("0."));
    assert!(version_at_least_min_exec(".5"));
    assert!(version_at_least_min_exec(".15"));
    assert!(!version_at_least_min_exec(".1"));
}

#[test]
fn url_encode_query_component() {
    assert_eq!(url_encode("foobar"), "foobar");
    assert_eq!(url_encode("a b&c=d"), "a%20b%26c%3Dd");
    assert_eq!(url_encode("bob's mod?"), "bob%27s%20mod%3F");
    assert_eq!(url_encode("\u{00e9}"), "%C3%A9");
    assert_eq!(url_encode("A-Z_0.9~"), "A-Z_0.9~");
}

#[test]
fn single_candidate_is_always_single() {
    let cands = vec![parse_record(&raw("foobar", "Foobar", "0.15"))];
    match select("completely unrelated", cands) {
        MatchDecision::Single(rec) => assert_eq!(rec.name, "foobar"),
        _ => panic!("one candidate must resolve to a single match"),
    }
}

#[test]
fn close_candidate_is_selected_among_many() {
    let cands = vec![
        parse_record(&raw("quux", "Quux", "0.15")),
        parse_record(&raw("foobaz", "The Foobaz", "0.15")),
        parse_record(&raw("foo", "Foo", "0.15")),
    ];
    // distance("foo", "foobaz") == 3: the first candidate within the
    // threshold wins, scanning in order.
    match select("foo", cands) {
        MatchDecision::Single(rec) => assert_eq!(rec.name, "foobaz"),
        _ => panic!("a candidate within distance 3 must be selected"),
    }
}

#[test]
fn no_close_candidate_lists_all_in_order() {
    let cands = vec![
        parse_record(&raw("alpha", "Alpha", "0.15")),
        parse_record(&raw("beta", "Beta", "0.15")),
    ];
    match select("completely unrelated", cands) {
        MatchDecision::Listing(l) => {
            assert_eq!(l.len(), 2);
            assert_eq!(l[0].name, "alpha");
            assert_eq!(l[1].name, "beta");
        }
        _ => panic!("no close candidate must fall back to a listing"),
    }
}

#[test]
fn empty_candidates_is_empty_decision() {
    assert!(matches!(
        select("anything", Vec::new()),
        MatchDecision::Empty
    ));
}

#[test]
fn candidates_filter_version_and_cap() {
    let mut raws = Vec::new();
    raws.push(raw("old", "Old", "0.14"));
    for i in 0..12 {
        raws.push(raw(&format!("mod{}", i), "Mod", "0.15"));
    }
    let cands = build_candidates(&raws);
    // Every entry is filtered (the 0.14 one is dropped), and the filtered
    // set is capped at ten.
    assert_eq!(cands.len(), 10);
    assert_eq!(cands[0].name, "mod0");
    assert_eq!(cands[9].name, "mod9");
}

#[test]
fn listing_text_lines() {
    let cands = vec![parse_record(&raw("cool mod", "Cool Mod", "0.15"))];
    let text = listing_text_exec(&cands);
    assert_eq!(
        text,
        "[Cool Mod](https://mods.factorio.com/mods/author/cool%20mod) by author\n"
    );
    assert_eq!(
        listing_text_exec(&Vec::new()),
        "No results for current factorio stable version or higher."
    );
}

#[test]
fn resolve_single_result_named_like_query() {
    let response = CatalogResponse::Results(vec![raw("foobar", "Foobar", "0.15")]);
    match resolve("foobar", response) {
        Resolution::Single(rec) => assert_eq!(rec.name, "foobar"),
        _ => panic!("a lone result must come back as a single record"),
    }
}

#[test]
fn resolve_close_match_among_candidates() {
    let response = CatalogResponse::Results(vec![
        raw("foobaz", "The Foobaz", "0.15"),
        raw("quux", "Quux", "0.15"),
    ]);
    match resolve("foo", response) {
        Resolution::Single(rec) => assert_eq!(rec.name, "foobaz"),
        _ => panic!("distance(\"foo\", \"foobaz\") == 3 must select foobaz"),
    }
}

#[test]
fn resolve_zero_candidates_is_no_results() {
    assert!(matches!(
        resolve("foo", CatalogResponse::Results(Vec::new())),
        Resolution::NoResults
    ));
}

#[test]
fn resolve_filters_low_version_even_when_close() {
    let response = CatalogResponse::Results(vec![
        raw("foo", "Foo", "0.14"),
        raw("alpha", "Alpha", "0.15"),
        raw("beta", "Beta", "0.15"),
    ]);
    match resolve("foo", response) {
        Resolution::Listing(l, _) => {
            assert_eq!(l.len(), 2);
            assert_eq!(l[0].name, "alpha");
            assert_eq!(l[1].name, "beta");
        }
        _ => panic!("the 0.14 candidate must not match nor be listed"),
    }
}

#[test]
fn resolve_empty_query_is_missing_argument() {
    assert!(matches!(
        resolve("", CatalogResponse::Results(Vec::new())),
        Resolution::MissingArgument
    ));
}

#[test]
fn resolve_failed_response_is_transport_failure() {
    assert!(matches!(
        resolve("foo", CatalogResponse::Failed),
        Resolution::TransportFailure
    ));
}

#[test]
fn normalize_strips_prefix_and_keyword() {
    assert_eq!(normalize("+linkmod some mod", "linkmod", "+"), "some mod");
    assert_eq!(normalize("linkmod bots", "linkmod", ""), "bots");
    assert_eq!(normalize("+linkmod", "linkmod", "+"), "");
    assert_eq!(normalize("+linkmod   spaced out  ", "linkmod", "+"), "spaced out");
    assert_eq!(normalize("+linkmod \t tabbed \t", "linkmod", "+"), "tabbed");
    assert_eq!(normalize("+linkmod query\r\n", "linkmod", "+"), "query");
}

#[test]
fn normalize_leaves_other_text_alone() {
    assert_eq!(normalize("hello there", "linkmod", "+"), "hello there");
    assert_eq!(normalize("!linkmod x", "linkmod", "+"), "!linkmod x");
    assert_eq!(normalize("+link", "linkmod", "+"), "+link");
}
