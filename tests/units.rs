use yuaidb::filter::words_contain;
use yuaidb::text::split_words;
use yuaidb::value::compare_values;
use yuaidb::{
    encode_frame, split_frames, Condition, Database, DbConfig, DbError, Decimal, FieldConfig, FieldType, Query,
    QueryOp, Row, TableConfig, Value, WalOperation,
};

fn field(name: &str, ty: FieldType) -> FieldConfig {
    FieldConfig { name: name.to_string(), field_type: ty, indexed: None, fulltext: None, unique: None, autoincrement: None }
}

fn one_table(name: &str, fields: Vec<FieldConfig>) -> DbConfig {
    DbConfig { tables: vec![TableConfig { name: name.to_string(), fields }] }
}

fn get<'a>(rec: &'a Vec<(String, String)>, key: &str) -> Option<&'a str> {
    rec.iter().find(|(k, _)| k == key).map(|(_, v)| v.as_str())
}

fn insert(db: &mut Database, t: &str, rec: Vec<(&str, &str)>) -> Result<Option<Vec<Vec<(String, String)>>>, DbError> {
    let mut q = db.insert(t);
    q.values(rec);
    q.execute(db, 100)
}

fn select(db: &mut Database, q: &Query) -> Vec<Vec<(String, String)>> {
    q.execute(db, 100).unwrap().unwrap_or_default()
}

fn text_of(t: FieldType, s: &str) -> Option<String> {
    Value::parse_as(t, s).map(|v| v.text())
}

#[test]
fn numeric_literals_read_exactly() {
    assert_eq!(text_of(FieldType::Numeric, "101"), Some("101".to_string()));
    assert_eq!(text_of(FieldType::Numeric, "1.50"), Some("1.5".to_string()));
    assert_eq!(text_of(FieldType::Numeric, "-0.05"), Some("-0.05".to_string()));
    assert_eq!(text_of(FieldType::Numeric, "+7."), Some("7".to_string()));
    assert_eq!(text_of(FieldType::Numeric, ".25"), Some("0.25".to_string()));
    assert_eq!(text_of(FieldType::Numeric, "2.000"), Some("2".to_string()));
    assert_eq!(text_of(FieldType::Numeric, "abc"), None);
    assert_eq!(text_of(FieldType::Numeric, "1.2.3"), None);
    assert_eq!(text_of(FieldType::Numeric, "."), None);
    match Value::parse_as(FieldType::Numeric, "-12.340") {
        Some(Value::Numeric(d)) => assert_eq!(d, Decimal { mant: -1234, scale: 2 }),
        other => panic!("unexpected {:?}", other),
    }
}

#[test]
fn timestamp_and_boolean_literals() {
    assert_eq!(text_of(FieldType::Timestamp, "-42"), Some("-42".to_string()));
    assert_eq!(text_of(FieldType::Timestamp, "+42"), Some("42".to_string()));
    assert_eq!(text_of(FieldType::Timestamp, "9223372036854775807"), Some("9223372036854775807".to_string()));
    assert_eq!(text_of(FieldType::Timestamp, "-9223372036854775808"), Some("-9223372036854775808".to_string()));
    assert_eq!(text_of(FieldType::Timestamp, "9223372036854775808"), None);
    assert_eq!(text_of(FieldType::Timestamp, "4.5"), None);
    assert_eq!(text_of(FieldType::Boolean, "true"), Some("true".to_string()));
    assert_eq!(text_of(FieldType::Boolean, "false"), Some("false".to_string()));
    assert_eq!(text_of(FieldType::Boolean, "True"), None);
    assert_eq!(text_of(FieldType::Text, "any thing"), Some("any thing".to_string()));
}

#[test]
fn typed_comparison_orders_numbers_by_value() {
    let two = Value::parse_as(FieldType::Numeric, "2").unwrap();
    let ten = Value::parse_as(FieldType::Numeric, "10").unwrap();
    assert_eq!(compare_values(Some(&two), Some(&ten), FieldType::Numeric), -1);
    assert_eq!(compare_values(Some(&two), Some(&ten), FieldType::Text), 1);
    assert_eq!(compare_values(Some(&ten), None, FieldType::Numeric), 1);
    assert_eq!(compare_values(None, None, FieldType::Numeric), 0);
    let a = Value::parse_as(FieldType::Numeric, "0.5").unwrap();
    let b = Value::parse_as(FieldType::Numeric, "0.50").unwrap();
    assert_eq!(compare_values(Some(&a), Some(&b), FieldType::Numeric), 0);
    let f = Value::Boolean(false);
    let t = Value::Boolean(true);
    assert_eq!(compare_values(Some(&f), Some(&t), FieldType::Boolean), -1);
}

#[test]
fn invalid_value_is_reported() {
    let mut db = Database::new(one_table("ships", vec![field("speed", FieldType::Numeric)]));
    match insert(&mut db, "ships", vec![("speed", "fast")]) {
        Err(DbError::InvalidValue(f, v)) => {
            assert_eq!(f, "speed");
            assert_eq!(v, "fast");
        }
        other => panic!("unexpected {:?}", other),
    }
}

#[test]
fn missing_tables_are_reported() {
    let mut db = Database::new(DbConfig::empty());
    let q = db.select("nowhere");
    match q.execute(&mut db, 0) {
        Err(DbError::TableNotFound(t)) => assert_eq!(t, "nowhere"),
        other => panic!("unexpected {:?}", other),
    }
    let q = db.delete("nowhere");
    assert!(matches!(q.execute(&mut db, 0), Err(DbError::TableNotFound(_))));
    insert(&mut db, "pirates", vec![("name", "Jack")]).unwrap();
    let mut q = db.select("pirates");
    q.join("ships", "s", "s.id", "ship");
    match q.execute(&mut db, 100) {
        Err(DbError::TableNotFound(t)) => assert_eq!(t, "ships"),
        other => panic!("unexpected {:?}", other),
    }
}

#[test]
fn insert_creates_unknown_tables_with_text_fields() {
    let mut db = Database::new(DbConfig::empty());
    insert(&mut db, "loot", vec![("gold", "12.50")]).unwrap();
    let q = db.select("loot");
    let rows = select(&mut db, &q);
    assert_eq!(rows, vec![vec![("gold".to_string(), "12.50".to_string())]]);
}

#[test]
fn empty_select_is_none() {
    let mut db = Database::new(one_table("pirates", vec![field("name", FieldType::Text)]));
    insert(&mut db, "pirates", vec![("name", "Jack")]).unwrap();
    let mut q = db.select("pirates");
    q.where_eq("name", "Bill");
    assert_eq!(q.execute(&mut db, 100).unwrap(), None);
}

#[test]
fn autoincrement_counts_up() {
    let mut id = field("id", FieldType::Numeric);
    id.autoincrement = Some(true);
    let mut db = Database::new(one_table("crew", vec![id, field("name", FieldType::Text)]));
    insert(&mut db, "crew", vec![("name", "Jack")]).unwrap();
    insert(&mut db, "crew", vec![("name", "Bill"), ("id", "10")]).unwrap();
    insert(&mut db, "crew", vec![("name", "Anne")]).unwrap();
    let mut q = db.select("crew");
    q.order_by("id", true);
    let rows = select(&mut db, &q);
    let got: Vec<(String, String)> = rows.iter().map(|r| (get(r, "id").unwrap().to_string(), get(r, "name").unwrap().to_string())).collect();
    assert_eq!(
        got,
        vec![("1".to_string(), "Jack".to_string()), ("10".to_string(), "Bill".to_string()), ("11".to_string(), "Anne".to_string())]
    );
}

#[test]
fn batch_insert_keeps_rows_before_a_failure() {
    let mut name = field("name", FieldType::Text);
    name.unique = Some(true);
    let mut db = Database::new(one_table("crew", vec![name]));
    let mut q = db.insert("crew");
    q.values(vec![vec![("name", "Jack")], vec![("name", "Jack")], vec![("name", "Anne")]]);
    assert!(matches!(q.execute(&mut db, 100), Err(DbError::DuplicateValue(_, _))));
    assert_eq!(db.tables()[0].rows.len(), 1);
}

#[test]
fn update_sets_fields_and_guards_unique_values() {
    let mut name = field("name", FieldType::Text);
    name.unique = Some(true);
    let mut db = Database::new(one_table("crew", vec![name, field("rank", FieldType::Numeric)]));
    insert(&mut db, "crew", vec![("name", "Jack"), ("rank", "1")]).unwrap();
    insert(&mut db, "crew", vec![("name", "Bill"), ("rank", "2")]).unwrap();
    let mut q = db.update("crew");
    q.values(vec![("rank", "5")]).where_eq("name", "Bill");
    assert_eq!(q.execute(&mut db, 100).unwrap(), None);
    let mut s = db.select("crew");
    s.where_eq("rank", "5");
    let rows = select(&mut db, &s);
    assert_eq!(rows.len(), 1);
    assert_eq!(get(&rows[0], "name"), Some("Bill"));
    let mut q = db.update("crew");
    q.values(vec![("name", "Jack")]).where_eq("name", "Bill");
    match q.execute(&mut db, 100) {
        Err(DbError::DuplicateValue(f, v)) => {
            assert_eq!(f, "name");
            assert_eq!(v, "Jack");
        }
        other => panic!("unexpected {:?}", other),
    }
}

#[test]
fn delete_removes_matching_rows() {
    let mut db = Database::new(one_table("crew", vec![field("name", FieldType::Text), field("rank", FieldType::Numeric)]));
    insert(&mut db, "crew", vec![("name", "Jack"), ("rank", "1")]).unwrap();
    insert(&mut db, "crew", vec![("name", "Bill"), ("rank", "2")]).unwrap();
    insert(&mut db, "crew", vec![("name", "Anne"), ("rank", "3")]).unwrap();
    let mut q = db.delete("crew");
    q.where_gt("rank", "1.5");
    q.execute(&mut db, 100).unwrap();
    let s = db.select("crew");
    let rows = select(&mut db, &s);
    assert_eq!(rows.len(), 1);
    assert_eq!(get(&rows[0], "name"), Some("Jack"));
}

#[test]
fn range_and_membership_conditions() {
    let mut db = Database::new(one_table("crew", vec![field("name", FieldType::Text), field("rank", FieldType::Numeric)]));
    for (n, r) in [("Jack", "2"), ("Bill", "10"), ("Anne", "7.5")] {
        insert(&mut db, "crew", vec![("name", n), ("rank", r)]).unwrap();
    }
    let names = |db: &mut Database, q: &Query| -> Vec<String> {
        let mut v: Vec<String> = select(db, q).iter().map(|r| get(r, "name").unwrap().to_string()).collect();
        v.sort();
        v
    };
    let mut q = db.select("crew");
    q.where_lt("rank", "8");
    assert_eq!(names(&mut db, &q), vec!["Anne".to_string(), "Jack".to_string()]);
    let mut q = db.select("crew");
    q.where_between("rank", "2", "7.5");
    assert_eq!(names(&mut db, &q), vec!["Anne".to_string(), "Jack".to_string()]);
    let mut q = db.select("crew");
    q.where_in("rank", vec!["10", "7.5"]);
    assert_eq!(names(&mut db, &q), vec!["Anne".to_string(), "Bill".to_string()]);
    let mut q = db.select("crew");
    q.where_gt("name", "Bill");
    assert_eq!(names(&mut db, &q), vec!["Jack".to_string()]);
}

#[test]
fn contains_ignores_case() {
    let mut db = Database::new(one_table("logs", vec![field("entry", FieldType::Text)]));
    insert(&mut db, "logs", vec![("entry", "Crossed the SEVEN Seas")]).unwrap();
    let mut q = db.select("logs");
    q.where_contains("entry", "seven sea");
    assert_eq!(select(&mut db, &q).len(), 1);
    let mut bio = field("entry", FieldType::Text);
    bio.fulltext = Some(true);
    let mut db = Database::new(one_table("logs", vec![bio]));
    insert(&mut db, "logs", vec![("entry", "Crossed the SEVEN Seas")]).unwrap();
    let mut q = db.select("logs");
    q.where_contains("entry", "SEAS");
    assert_eq!(select(&mut db, &q).len(), 1);
    let mut q = db.select("logs");
    q.where_contains("entry", "seven sea");
    assert_eq!(q.execute(&mut db, 100).unwrap(), None);
}

#[test]
fn star_without_schema_sorts_fields_and_dedupes() {
    let mut db = Database::new(DbConfig::empty());
    insert(&mut db, "loot", vec![("b", "2"), ("a", "1")]).unwrap();
    insert(&mut db, "loot", vec![("a", "1"), ("b", "2")]).unwrap();
    let q = db.select("loot");
    let rows = select(&mut db, &q);
    assert_eq!(rows, vec![vec![("a".to_string(), "1".to_string()), ("b".to_string(), "2".to_string())]]);
}

#[test]
fn builders_set_the_plan() {
    let db = Database::new(DbConfig::empty());
    let mut q = db.select("pirates");
    assert_eq!(q.fields, vec!["*".to_string()]);
    assert_eq!(q.alias, "pirates");
    q.group_by("ship").limit(3).offset(2).order_by("p.name", true);
    assert_eq!(q.group_by, Some("ship".to_string()));
    assert_eq!(q.limit, Some(3));
    assert_eq!(q.offset, Some(2));
    assert_eq!(q.order_by, Some(("p.name".to_string(), true)));
    q.where_eq("a", "1").where_in("b", vec!["x", "y"]).where_between("c", "1", "2");
    assert_eq!(q.where_clauses.len(), 1);
    assert_eq!(q.where_clauses[0].len(), 3);
    let d = Query::default();
    assert_eq!(d.op, QueryOp::Select);
    assert!(d.table.is_empty());
    assert!(d.wal_operation().is_none());
}

#[test]
fn frames_encode_and_split() {
    assert_eq!(encode_frame(&vec![1, 2]), vec![2, 0, 0, 0, 0, 0, 0, 0, 1, 2]);
    let mut log = encode_frame(&vec![9]);
    log.extend(encode_frame(&vec![]));
    log.extend(encode_frame(&vec![4, 5, 6]));
    let (frames, clean) = split_frames(&log);
    assert!(clean);
    assert_eq!(frames, vec![vec![9], vec![], vec![4, 5, 6]]);
    log.extend(vec![3, 0, 0, 0, 0, 0, 0, 0, 1]);
    let (frames, clean) = split_frames(&log);
    assert!(!clean);
    assert_eq!(frames.len(), 3);
    let (frames, clean) = split_frames(&vec![1, 0]);
    assert!(!clean);
    assert!(frames.is_empty());
}

#[test]
fn replay_skips_duplicates_and_applies_updates() {
    let mut name = field("name", FieldType::Text);
    name.unique = Some(true);
    let mut db = Database::new(one_table("crew", vec![name, field("rank", FieldType::Text)]));
    let op = WalOperation::Insert { table: "crew".to_string(), values: vec![vec![("name".to_string(), "Jack".to_string())]] };
    db.replay(&op, 100);
    db.replay(&op, 100);
    assert_eq!(db.tables()[0].rows.len(), 1);
    let up = WalOperation::Update {
        table: "crew".to_string(),
        values: vec![("rank".to_string(), "captain".to_string())],
        where_clauses: vec![vec![Condition::Eq("name".to_string(), "Jack".to_string())]],
    };
    db.replay(&up, 100);
    let mut q = db.select("crew");
    q.where_eq("rank", "captain");
    assert_eq!(select(&mut db, &q).len(), 1);
    let del = WalOperation::Delete { table: "crew".to_string(), where_clauses: vec![] };
    db.replay(&del, 100);
    assert_eq!(db.tables()[0].rows.len(), 0);
}

#[test]
fn malformed_snapshots_are_refused() {
    let mut db = Database::new(DbConfig::empty());
    let bad = Row { id: 1, data: vec![("n".to_string(), Value::Numeric(Decimal { mant: 10, scale: 1 }))], expires_at: None };
    match db.install_table(&"t".to_string(), vec![bad]) {
        Err(DbError::SerializationError(t)) => assert_eq!(t, "t"),
        other => panic!("unexpected {:?}", other),
    }
    assert!(db.tables().is_empty());
}

#[test]
fn row_ids_that_run_out_are_reported() {
    let mut db = Database::new(DbConfig::empty());
    let last = Row { id: i32::MAX, data: vec![], expires_at: None };
    db.install_table(&"t".to_string(), vec![last]).unwrap();
    match insert(&mut db, "t", vec![("a", "1")]) {
        Err(DbError::Generic(t)) => assert_eq!(t, "t"),
        other => panic!("unexpected {:?}", other),
    }
}

#[test]
fn new_schema_adds_tables_and_keeps_data() {
    let mut db = Database::new(DbConfig::empty());
    insert(&mut db, "old", vec![("a", "1")]).unwrap();
    db.apply_config(one_table("fresh", vec![field("x", FieldType::Numeric)]));
    let names: Vec<String> = db.tables().iter().map(|t| t.name.clone()).collect();
    assert_eq!(names, vec!["old".to_string(), "fresh".to_string()]);
    assert_eq!(db.tables()[0].rows.len(), 1);
    assert_eq!(db.config().tables[0].name, "fresh");
}

#[test]
fn indexes_follow_updates_and_deletes() {
    let mut rank = field("rank", FieldType::Numeric);
    rank.indexed = Some(true);
    let mut bio = field("bio", FieldType::Text);
    bio.fulltext = Some(true);
    let mut db = Database::new(one_table("crew", vec![field("name", FieldType::Text), rank, bio]));
    insert(&mut db, "crew", vec![("name", "Jack"), ("rank", "1.0"), ("bio", "Old Salt")]).unwrap();
    insert(&mut db, "crew", vec![("name", "Bill"), ("rank", "2"), ("bio", "young SALTY dog")]).unwrap();
    assert_eq!(db.index_lookup("crew", "rank", "1"), Some(vec![1]));
    assert_eq!(db.fulltext_lookup("crew", "bio", "salt"), Some(vec![1, 2]));
    let mut q = db.update("crew");
    q.values(vec![("rank", "2")]).where_eq("name", "Jack");
    q.execute(&mut db, 100).unwrap();
    assert_eq!(db.index_lookup("crew", "rank", "1"), Some(vec![]));
    assert_eq!(db.index_lookup("crew", "rank", "2"), Some(vec![1, 2]));
    let mut q = db.delete("crew");
    q.where_eq("name", "Bill");
    q.execute(&mut db, 100).unwrap();
    assert_eq!(db.index_lookup("crew", "rank", "2"), Some(vec![1]));
    assert_eq!(db.fulltext_lookup("crew", "bio", "dog"), Some(vec![]));
    assert_eq!(db.fulltext_lookup("crew", "name", "x"), None);
}

#[test]
fn indexed_membership_matches_a_scan() {
    let mut rank = field("rank", FieldType::Numeric);
    rank.indexed = Some(true);
    let mut db = Database::new(one_table("crew", vec![field("name", FieldType::Text), rank]));
    for (n, r) in [("Jack", "2"), ("Bill", "10"), ("Anne", "7.50")] {
        insert(&mut db, "crew", vec![("name", n), ("rank", r)]).unwrap();
    }
    let mut q = db.select("crew");
    q.where_in("rank", vec!["10", "7.5", "99"]);
    let mut names: Vec<String> = select(&mut db, &q).iter().map(|r| get(r, "name").unwrap().to_string()).collect();
    names.sort();
    assert_eq!(names, vec!["Anne".to_string(), "Bill".to_string()]);
    let mut q = db.select("crew");
    q.where_eq("rank", "7.5").where_eq("name", "Anne");
    assert_eq!(select(&mut db, &q).len(), 1);
}

#[test]
fn uniqueness_compares_canonical_text_across_a_type_change() {
    let mut code = field("code", FieldType::Text);
    code.unique = Some(true);
    let mut db = Database::new(one_table("crew", vec![code]));
    insert(&mut db, "crew", vec![("code", "1")]).unwrap();
    let mut code = field("code", FieldType::Numeric);
    code.unique = Some(true);
    db.apply_config(one_table("crew", vec![code]));
    match insert(&mut db, "crew", vec![("code", "1.0")]) {
        Err(DbError::DuplicateValue(f, v)) => {
            assert_eq!(f, "code");
            assert_eq!(v, "1.0");
        }
        other => panic!("unexpected {:?}", other),
    }
    assert_eq!(db.tables()[0].rows.len(), 1);
}

#[test]
fn replayed_batch_stops_where_the_insert_stopped() {
    let cfg = || one_table("crew", vec![field("rank", FieldType::Numeric)]);
    let mut db = Database::new(cfg());
    let mut q = db.insert("crew");
    q.values(vec![vec![("rank", "1")], vec![("rank", "high")], vec![("rank", "2")]]);
    let op = q.wal_operation().unwrap();
    assert!(matches!(q.execute(&mut db, 100), Err(DbError::InvalidValue(_, _))));
    assert_eq!(db.tables()[0].rows.len(), 1);
    let mut restarted = Database::new(cfg());
    restarted.replay(&op, 100);
    assert_eq!(restarted.tables()[0].rows.len(), 1);
}

#[test]
fn numeric_literals_with_exponents() {
    assert_eq!(text_of(FieldType::Numeric, "1e3"), Some("1000".to_string()));
    assert_eq!(text_of(FieldType::Numeric, "2.5E-2"), Some("0.025".to_string()));
    assert_eq!(text_of(FieldType::Numeric, "-1.5e1"), Some("-15".to_string()));
    assert_eq!(text_of(FieldType::Numeric, "+4.20e+1"), Some("42".to_string()));
    assert_eq!(text_of(FieldType::Numeric, "1.5e-17"), Some("0.000000000000000015".to_string()));
    assert_eq!(text_of(FieldType::Numeric, "0e-99"), Some("0".to_string()));
    assert_eq!(text_of(FieldType::Numeric, "1e19"), None);
    assert_eq!(text_of(FieldType::Numeric, "1e-19"), None);
    assert_eq!(text_of(FieldType::Numeric, "1e"), None);
    assert_eq!(text_of(FieldType::Numeric, "e5"), None);
    assert_eq!(text_of(FieldType::Numeric, "1e2.5"), None);
}

#[test]
fn empty_and_group_selects_every_row() {
    let mut db = Database::new(one_table("crew", vec![field("name", FieldType::Text)]));
    insert(&mut db, "crew", vec![("name", "Jack")]).unwrap();
    insert(&mut db, "crew", vec![("name", "Bill")]).unwrap();
    let mut q = db.select("crew");
    q.where_clauses = vec![vec![]];
    assert_eq!(select(&mut db, &q).len(), 2);
    q.where_clauses = vec![vec![Condition::Eq("name".to_string(), "Nobody".to_string())], vec![]];
    assert_eq!(select(&mut db, &q).len(), 2);
}

#[test]
fn comparisons_follow_the_declared_type() {
    let mut db = Database::new(one_table("crew", vec![field("code", FieldType::Text)]));
    insert(&mut db, "crew", vec![("code", "10")]).unwrap();
    insert(&mut db, "crew", vec![("code", "9")]).unwrap();
    let mut q = db.select("crew");
    q.where_lt("code", "5");
    let rows = select(&mut db, &q);
    assert_eq!(rows.len(), 1);
    assert_eq!(get(&rows[0], "code"), Some("10"));
    db.apply_config(one_table("crew", vec![field("code", FieldType::Numeric)]));
    insert(&mut db, "crew", vec![("code", "3")]).unwrap();
    let mut q = db.select("crew");
    q.where_lt("code", "5");
    let mut codes: Vec<String> = select(&mut db, &q).iter().map(|r| get(r, "code").unwrap().to_string()).collect();
    codes.sort();
    assert_eq!(codes, vec!["10".to_string(), "3".to_string()]);
}

#[test]
fn lowered_words_are_searched_for_the_query() {
    let words = vec!["sailed".to_string(), "seas".to_string()];
    assert!(words_contain(&words, "sea"));
    assert!(words_contain(&words, ""));
    assert!(!words_contain(&words, "storm"));
    assert!(!words_contain(&vec![], ""));
}

#[test]
fn words_split_as_std_splits_them() {
    let samples = [
        "",
        "   ",
        "sailed the seven seas",
        "  lead\tand\ntrail  ",
        "no\u{a0}break\u{3000}ideographic\u{2028}line\u{85}next",
        "zero\u{200b}width\u{feff}marks",
        "\u{1680}ogham\u{2000}\u{200a}quads\u{202f}\u{205f}",
    ];
    for s in samples {
        let expected: Vec<String> = s.split_whitespace().map(|w| w.to_string()).collect();
        assert_eq!(split_words(s), expected, "on {:?}", s);
    }
}
