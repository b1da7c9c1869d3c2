use ycm::ConfigsDB;
use ycm::CoreError;

fn bv(s: &str) -> Vec<u8> {
    s.as_bytes().to_vec()
}

#[test]
fn empty_database_serializes_to_exact_document() {
    let db = ConfigsDB::default();
    let expected = "{\n  \"version\": 0,\n  \"configs\": {}\n}";
    assert_eq!(db.to_json(), bv(expected));
}

#[test]
fn one_entry_serializes_to_exact_document() {
    let mut db = ConfigsDB::default();
    db.add_config(bv("shell"), bv("/store/shell/.bashrc"), bv("/home/u/.bashrc"));
    let expected = "{\n  \"version\": 0,\n  \"configs\": {\n    \"shell\": [\n      {\n        \"source\": \"/store/shell/.bashrc\",\n        \"target\": \"/home/u/.bashrc\"\n      }\n    ]\n  }\n}";
    assert_eq!(db.to_json(), bv(expected));
}

#[test]
fn round_trip_preserves_names_and_order() {
    let mut db = ConfigsDB::default();
    db.add_config(bv("nvim"), bv("/s/nvim/init.vim"), bv("/t/init.vim"));
    db.add_config(bv("nvim"), bv("/s/nvim/keys.vim"), bv("/t/keys.vim"));
    db.add_config(bv("zsh"), bv("/s/zsh/.zshrc"), bv("/t/.zshrc"));
    let doc = db.to_json();
    let back = ConfigsDB::from_json(&doc).unwrap();
    assert_eq!(back.version(), db.version());
    let l = back.get_configs(&bv("nvim")).unwrap();
    assert_eq!(l.len(), 2);
    assert_eq!(l[0].source(), &bv("/s/nvim/init.vim"));
    assert_eq!(l[0].target(), &bv("/t/init.vim"));
    assert_eq!(l[1].source(), &bv("/s/nvim/keys.vim"));
    assert_eq!(l[1].target(), &bv("/t/keys.vim"));
    let z = back.get_configs(&bv("zsh")).unwrap();
    assert_eq!(z.len(), 1);
    assert_eq!(z[0].source(), &bv("/s/zsh/.zshrc"));
    assert_eq!(back.to_json(), doc);
}

#[test]
fn round_trip_escapes_special_bytes() {
    let mut db = ConfigsDB::default();
    db.add_config(
        bv("odd \"name\" with \\slash"),
        bv("/s/odd/a\tb"),
        bv("/t/line\nbreak"),
    );
    let doc = db.to_json();
    let back = ConfigsDB::from_json(&doc).unwrap();
    let l = back.get_configs(&bv("odd \"name\" with \\slash")).unwrap();
    assert_eq!(l.len(), 1);
    assert_eq!(l[0].source(), &bv("/s/odd/a\tb"));
    assert_eq!(l[0].target(), &bv("/t/line\nbreak"));
}

#[test]
fn round_trip_of_empty_database() {
    let db = ConfigsDB::default();
    let back = ConfigsDB::from_json(&db.to_json()).unwrap();
    assert_eq!(back.version(), 0);
    assert!(back.get_all_configs().is_empty());
}

#[test]
fn parse_accepts_flexible_whitespace() {
    let doc = bv("  {\"version\":3,\"configs\":{\"a\": [ {\"source\":\"/s\",\"target\":\"/t\"} ]}}  ");
    let db = ConfigsDB::from_json(&doc).unwrap();
    assert_eq!(db.version(), 3);
    let l = db.get_configs(&bv("a")).unwrap();
    assert_eq!(l.len(), 1);
    assert_eq!(l[0].source(), &bv("/s"));
    assert_eq!(l[0].target(), &bv("/t"));
}

#[test]
fn parse_decodes_standard_escapes() {
    let doc = bv("{\"version\":0,\"configs\":{\"a\":[{\"source\":\"\\u0041\\n\",\"target\":\"\\\"q\\\"\"}]}}");
    let db = ConfigsDB::from_json(&doc).unwrap();
    let l = db.get_configs(&bv("a")).unwrap();
    assert_eq!(l[0].source(), &bv("A\n"));
    assert_eq!(l[0].target(), &bv("\"q\""));
}

#[test]
fn parse_rejects_malformed_document() {
    assert!(matches!(ConfigsDB::from_json(&bv("")), Err(CoreError::ParseError)));
    assert!(matches!(ConfigsDB::from_json(&bv("not json")), Err(CoreError::ParseError)));
    assert!(matches!(ConfigsDB::from_json(&bv("{}")), Err(CoreError::ParseError)));
    assert!(matches!(
        ConfigsDB::from_json(&bv("{\"version\": 0}")),
        Err(CoreError::ParseError)
    ));
    assert!(matches!(
        ConfigsDB::from_json(&bv("{\"configs\": {}}")),
        Err(CoreError::ParseError)
    ));
    assert!(matches!(
        ConfigsDB::from_json(&bv("{\"version\": 0, \"configs\": {}} trailing")),
        Err(CoreError::ParseError)
    ));
}

#[test]
fn parse_rejects_version_beyond_range() {
    let doc = bv("{\"version\": 4294967296, \"configs\": {}}");
    assert!(matches!(ConfigsDB::from_json(&doc), Err(CoreError::ParseError)));
    let ok = bv("{\"version\": 4294967295, \"configs\": {}}");
    assert_eq!(ConfigsDB::from_json(&ok).unwrap().version(), u32::MAX);
}

#[test]
fn parse_rejects_repeated_name_or_entry() {
    let dup_name = bv(
        "{\"version\":0,\"configs\":{\"a\":[],\"a\":[]}}",
    );
    assert!(matches!(ConfigsDB::from_json(&dup_name), Err(CoreError::ParseError)));
    let dup_entry = bv(
        "{\"version\":0,\"configs\":{\"a\":[{\"source\":\"/s\",\"target\":\"/t\"},{\"source\":\"/s\",\"target\":\"/t\"}]}}",
    );
    assert!(matches!(ConfigsDB::from_json(&dup_entry), Err(CoreError::ParseError)));
}

#[test]
fn parse_accepts_empty_entry_list() {
    let doc = bv("{\"version\":0,\"configs\":{\"a\":[]}}");
    let db = ConfigsDB::from_json(&doc).unwrap();
    let l = db.get_configs(&bv("a")).unwrap();
    assert_eq!(l.len(), 0);
}

#[test]
fn nonzero_version_survives_round_trip() {
    let doc = bv("{\"version\": 7, \"configs\": {}}");
    let db = ConfigsDB::from_json(&doc).unwrap();
    let back = ConfigsDB::from_json(&db.to_json()).unwrap();
    assert_eq!(back.version(), 7);
}

#[test]
fn parse_ignores_unknown_members() {
    let doc = bv(
        "{\"comment\": \"kept for later\", \"version\": 1, \"flags\": [1, -2.5e3, true, null, {\"x\": false}], \"configs\": {\"a\": [{\"source\": \"/s\", \"mode\": 420, \"target\": \"/t\", \"note\": null}]}, \"trailer\": {}}",
    );
    let db = ConfigsDB::from_json(&doc).unwrap();
    assert_eq!(db.version(), 1);
    let l = db.get_configs(&bv("a")).unwrap();
    assert_eq!(l.len(), 1);
    assert_eq!(l[0].source(), &bv("/s"));
    assert_eq!(l[0].target(), &bv("/t"));
}

#[test]
fn parse_accepts_members_in_any_order() {
    let doc = bv(
        "{\"configs\": {\"a\": [{\"target\": \"/t\", \"source\": \"/s\"}]}, \"version\": 2}",
    );
    let db = ConfigsDB::from_json(&doc).unwrap();
    assert_eq!(db.version(), 2);
    let l = db.get_configs(&bv("a")).unwrap();
    assert_eq!(l[0].source(), &bv("/s"));
    assert_eq!(l[0].target(), &bv("/t"));
}

#[test]
fn parse_decodes_unicode_escapes_as_utf8() {
    let doc = bv(
        "{\"version\":0,\"configs\":{\"a\":[{\"source\":\"caf\\u00e9\",\"target\":\"\\u20ac5\"}]}}",
    );
    let db = ConfigsDB::from_json(&doc).unwrap();
    let l = db.get_configs(&bv("a")).unwrap();
    assert_eq!(l[0].source(), &bv("café"));
    assert_eq!(l[0].target(), &bv("€5"));
}

#[test]
fn parse_rejects_number_with_leading_zero() {
    let doc = bv("{\"version\": 007, \"configs\": {}}");
    assert!(matches!(ConfigsDB::from_json(&doc), Err(CoreError::ParseError)));
    let zero = bv("{\"version\": 0, \"configs\": {}}");
    assert_eq!(ConfigsDB::from_json(&zero).unwrap().version(), 0);
}

#[test]
fn parse_rejects_repeated_schema_member() {
    let doc = bv("{\"version\": 0, \"version\": 1, \"configs\": {}}");
    assert!(matches!(ConfigsDB::from_json(&doc), Err(CoreError::ParseError)));
    let entry = bv(
        "{\"version\":0,\"configs\":{\"a\":[{\"source\":\"/s\",\"source\":\"/x\",\"target\":\"/t\"}]}}",
    );
    assert!(matches!(ConfigsDB::from_json(&entry), Err(CoreError::ParseError)));
}

#[test]
fn parse_rejects_entry_missing_a_field() {
    let doc = bv("{\"version\":0,\"configs\":{\"a\":[{\"source\":\"/s\"}]}}");
    assert!(matches!(ConfigsDB::from_json(&doc), Err(CoreError::ParseError)));
    let empty = bv("{\"version\":0,\"configs\":{\"a\":[{}]}}");
    assert!(matches!(ConfigsDB::from_json(&empty), Err(CoreError::ParseError)));
}
