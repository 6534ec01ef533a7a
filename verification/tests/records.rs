use linkmod::records::{parse_record, CanonicalRecord, RawRecord};

fn raw(name: &str, title: &str, factorio_version: &str) -> RawRecord {
    let mut r = RawRecord::empty();
    r.name = Some(name.to_string());
    r.title = Some(title.to_string());
    r.factorio_version = Some(factorio_version.to_string());
    r
}

#[test]
fn minimal_record_gets_all_fallbacks() {
    let rec: CanonicalRecord = parse_record(&RawRecord::empty());
    assert_eq!(rec.thumb, "http://i.imgur.com/ckaei9P.png");
    assert_eq!(rec.homepage, "None");
    assert_eq!(rec.source_path, "None");
    assert_eq!(rec.dependencies, "No dependencies.");
    assert!(rec.tag.is_none());
    assert_eq!(rec.download_count, 0);
    assert_eq!(rec.name, "null");
    assert_eq!(rec.title, "null");
    assert_eq!(rec.author, "null");
    assert_eq!(rec.link, "https://mods.factorio.com/mods/null/null");
}

#[test]
fn dates_truncate_at_first_space() {
    let mut r = RawRecord::empty();
    r.created_at = Some("2017-04-25 12:00:00 UTC".to_string());
    r.updated_at = Some("2017-05-01".to_string());
    let rec = parse_record(&r);
    assert_eq!(rec.creation_date, "2017-04-25");
    assert_eq!(rec.last_updated, "2017-05-01");
}

#[test]
fn links_format_and_encode_spaces() {
    let mut r = RawRecord::empty();
    r.name = Some("cool mod".to_string());
    r.owner = Some("some guy".to_string());
    r.homepage = Some("http://example.com".to_string());
    r.github_path = Some("some/repo".to_string());
    let rec = parse_record(&r);
    assert_eq!(rec.homepage, "[Home](http://example.com)");
    assert_eq!(rec.source_path, "[Source](https://github.com/some/repo)");
    assert_eq!(
        rec.link,
        "https://mods.factorio.com/mods/some%20guy/cool%20mod"
    );
}

#[test]
fn empty_homepage_is_none_text() {
    let mut r = RawRecord::empty();
    r.homepage = Some("".to_string());
    r.github_path = Some("".to_string());
    let rec = parse_record(&r);
    assert_eq!(rec.homepage, "None");
    assert_eq!(rec.source_path, "None");
}

#[test]
fn first_tag_title_is_kept() {
    let mut r = RawRecord::empty();
    r.tags = vec!["logistics".to_string(), "cheats".to_string()];
    let rec = parse_record(&r);
    assert_eq!(rec.tag, Some("logistics".to_string()));
}

#[test]
fn dependency_lines_keep_required_entries() {
    let mut r = RawRecord::empty();
    r.dependencies = Some(vec!["base >= 0.15".to_string(), "other".to_string()]);
    let rec = parse_record(&r);
    assert_eq!(rec.dependencies, "base >= 0.15\nother\n");
}

#[test]
fn one_optional_dependency_is_singular() {
    let mut r = RawRecord::empty();
    r.dependencies = Some(vec!["base".to_string(), "? extra".to_string()]);
    let rec = parse_record(&r);
    assert_eq!(rec.dependencies, "base\n...and 1 optional dependency.");
}

#[test]
fn several_optional_dependencies_are_plural() {
    let mut r = RawRecord::empty();
    r.dependencies = Some(vec![
        "? extra".to_string(),
        "base".to_string(),
        "? more".to_string(),
        "? evenmore".to_string(),
    ]);
    let rec = parse_record(&r);
    assert_eq!(rec.dependencies, "base\n...and 3 optional dependencies.");
}

#[test]
fn embed_fields_enumerates_the_card() {
    let mut r = RawRecord::empty();
    r.owner = Some("author".to_string());
    r.downloads_count = Some(5);
    let rec = parse_record(&r);
    let fields = rec.embed_fields();
    assert_eq!(fields.len(), 10);
    assert_eq!(fields[0], ("Author".to_string(), "author".to_string()));
    assert_eq!(fields[1], ("Downloads".to_string(), "5 downloads".to_string()));
    assert_eq!(fields[6], ("Tagged".to_string(), "Not tagged.".to_string()));
}

#[test]
fn thumbnail_is_kept_when_present() {
    let mut r = raw("a", "b", "0.15");
    r.thumb_url = Some("http://example.com/thumb.png".to_string());
    let rec = parse_record(&r);
    assert_eq!(rec.thumb, "http://example.com/thumb.png");
}
