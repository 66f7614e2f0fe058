use yuaidb::{
    encode_frame, split_frames, Condition, Database, DbConfig, DbError, FieldConfig, FieldType, Query,
    TableConfig, WalOperation,
};

fn field(name: &str, ty: FieldType) -> FieldConfig {
    FieldConfig {
        name: name.to_string(),
        field_type: ty,
        indexed: None,
        fulltext: None,
        unique: None,
        autoincrement: None,
    }
}

fn table(name: &str, fields: Vec<FieldConfig>) -> TableConfig {
    TableConfig { name: name.to_string(), fields }
}

fn get<'a>(rec: &'a Vec<(String, String)>, key: &str) -> Option<&'a str> {
    rec.iter().find(|(k, _)| k == key).map(|(_, v)| v.as_str())
}

fn run(db: &mut Database, q: &Query, now: i64) -> Result<Option<Vec<Vec<(String, String)>>>, DbError> {
    q.execute(db, now)
}

fn insert(db: &mut Database, t: &str, rec: Vec<(&str, &str)>, now: i64) -> Result<Option<Vec<Vec<(String, String)>>>, DbError> {
    let mut q = db.insert(t);
    q.values(rec);
    run(db, &q, now)
}

fn select_all(db: &mut Database, t: &str, now: i64) -> Result<Option<Vec<Vec<(String, String)>>>, DbError> {
    let q = db.select(t);
    q.execute(db, now)
}

const NOW: i64 = 1_700_000_000;

#[test]
fn unique_insert_rejection() {
    let mut name = field("name", FieldType::Text);
    name.unique = Some(true);
    let cfg = DbConfig { tables: vec![table("pirates", vec![name, field("ship", FieldType::Text)])] };
    let mut db = Database::new(cfg);
    assert!(insert(&mut db, "pirates", vec![("name", "Jack"), ("ship", "101")], NOW).is_ok());
    match insert(&mut db, "pirates", vec![("name", "Jack"), ("ship", "102")], NOW) {
        Err(DbError::DuplicateValue(f, v)) => {
            assert_eq!(f, "name");
            assert_eq!(v, "Jack");
        }
        other => panic!("expected a duplicate, got {:?}", other),
    }
    let rows = select_all(&mut db, "pirates", NOW).unwrap().unwrap();
    assert_eq!(rows.len(), 1);
    assert_eq!(get(&rows[0], "ship"), Some("101"));
}

fn ship_db() -> Database {
    let mut ship = field("ship", FieldType::Text);
    ship.indexed = Some(true);
    let cfg = DbConfig {
        tables: vec![table("pirates", vec![field("id", FieldType::Numeric), field("name", FieldType::Text), ship])],
    };
    let mut db = Database::new(cfg);
    insert(&mut db, "pirates", vec![("id", "1"), ("name", "Jack"), ("ship", "101")], NOW).unwrap();
    insert(&mut db, "pirates", vec![("id", "2"), ("name", "Bill"), ("ship", "102")], NOW).unwrap();
    insert(&mut db, "pirates", vec![("id", "3"), ("name", "Anne"), ("ship", "101")], NOW).unwrap();
    db
}

fn ids(rows: &Vec<Vec<(String, String)>>) -> Vec<String> {
    let mut v: Vec<String> = rows.iter().map(|r| get(r, "id").unwrap().to_string()).collect();
    v.sort();
    v
}

#[test]
fn indexed_equality() {
    let mut db = ship_db();
    let mut q = db.select("pirates");
    q.where_eq("ship", "101");
    let rows = run(&mut db, &q, NOW).unwrap().unwrap();
    assert_eq!(ids(&rows), vec!["1".to_string(), "3".to_string()]);
    // The index lists the two rows under "101", by row id, in insertion order.
    assert_eq!(db.index_lookup("pirates", "ship", "101"), Some(vec![1, 3]));
    assert_eq!(db.index_lookup("pirates", "ship", "102"), Some(vec![2]));
    assert_eq!(db.index_lookup("pirates", "ship", "999"), Some(vec![]));
    assert_eq!(db.index_lookup("pirates", "name", "Jack"), None);
}

#[test]
fn fulltext_substring() {
    let mut bio = field("bio", FieldType::Text);
    bio.fulltext = Some(true);
    let cfg = DbConfig { tables: vec![table("pirates", vec![bio])] };
    let mut db = Database::new(cfg);
    insert(&mut db, "pirates", vec![("bio", "sailed the seven seas")], NOW).unwrap();
    insert(&mut db, "pirates", vec![("bio", "stormy night")], NOW).unwrap();
    let mut q = db.select("pirates");
    q.where_contains("bio", "sea");
    let rows = run(&mut db, &q, NOW).unwrap().unwrap();
    assert_eq!(rows.len(), 1);
    assert_eq!(get(&rows[0], "bio"), Some("sailed the seven seas"));
    let mut q = db.select("pirates");
    q.where_contains("bio", "sto");
    let rows = run(&mut db, &q, NOW).unwrap().unwrap();
    assert_eq!(rows.len(), 1);
    assert_eq!(get(&rows[0], "bio"), Some("stormy night"));
    let mut q = db.select("pirates");
    q.where_contains("bio", "");
    let rows = run(&mut db, &q, NOW).unwrap().unwrap();
    assert_eq!(rows.len(), 2);
    assert_eq!(db.fulltext_lookup("pirates", "bio", "SEA"), Some(vec![1]));
    assert_eq!(db.fulltext_lookup("pirates", "bio", "sto"), Some(vec![2]));
}

#[test]
fn equi_join_projection() {
    let cfg = DbConfig {
        tables: vec![
            table("pirates", vec![field("id", FieldType::Numeric), field("name", FieldType::Text), field("ship_id", FieldType::Numeric)]),
            table("ships", vec![field("ship_id", FieldType::Numeric), field("name", FieldType::Text), field("speed", FieldType::Text)]),
        ],
    };
    let mut db = Database::new(cfg);
    insert(&mut db, "pirates", vec![("id", "1"), ("name", "Jack"), ("ship_id", "101")], NOW).unwrap();
    insert(&mut db, "pirates", vec![("id", "2"), ("name", "Bill"), ("ship_id", "102")], NOW).unwrap();
    insert(&mut db, "ships", vec![("ship_id", "101"), ("name", "Comet"), ("speed", "0.9")], NOW).unwrap();
    insert(&mut db, "ships", vec![("ship_id", "102"), ("name", "Storm"), ("speed", "0.7")], NOW).unwrap();
    let mut q = db.select("pirates");
    q.alias("p").fields(vec!["p.name", "s.name", "s.speed"]).join("ships", "s", "s.ship_id", "p.ship_id");
    let rows = run(&mut db, &q, NOW).unwrap().unwrap();
    assert_eq!(rows.len(), 2);
    let mut pairs: Vec<(String, String, String)> = rows
        .iter()
        .map(|r| (get(r, "p.name").unwrap().to_string(), get(r, "s.name").unwrap().to_string(), get(r, "s.speed").unwrap().to_string()))
        .collect();
    pairs.sort();
    assert_eq!(
        pairs,
        vec![
            ("Bill".to_string(), "Storm".to_string(), "0.7".to_string()),
            ("Jack".to_string(), "Comet".to_string(), "0.9".to_string()),
        ]
    );
}

#[test]
fn dnf_where() {
    let mut db = ship_db();
    let mut q = db.select("pirates");
    q.where_clauses = vec![
        vec![Condition::Eq("ship".to_string(), "101".to_string()), Condition::Eq("name".to_string(), "Jack".to_string())],
        vec![Condition::Eq("ship".to_string(), "102".to_string())],
    ];
    let rows = run(&mut db, &q, NOW).unwrap().unwrap();
    assert_eq!(ids(&rows), vec!["1".to_string(), "2".to_string()]);
}

#[test]
fn order_limit_offset() {
    let mut db = ship_db();
    let mut q = db.select("pirates");
    q.order_by("name", false).offset(1).limit(1);
    let rows = run(&mut db, &q, NOW).unwrap().unwrap();
    assert_eq!(rows.len(), 1);
    assert_eq!(get(&rows[0], "name"), Some("Bill"));
}

#[test]
fn crash_recovery() {
    let cfg = || DbConfig { tables: vec![table("pirates", vec![field("name", FieldType::Text)])] };
    let mut db = Database::new(cfg());
    let mut q = db.insert("pirates");
    q.values(vec![("name", "Jack")]);
    let op = q.wal_operation().unwrap();
    let log = encode_frame(&vec![7, 0, 1]);
    let (frames, clean) = split_frames(&log);
    assert!(clean);
    assert_eq!(frames, vec![vec![7, 0, 1]]);
    run(&mut db, &q, NOW).unwrap();
    // The process dies before a checkpoint: a fresh engine replays the log.
    let mut restarted = Database::new(cfg());
    restarted.replay(&op, NOW);
    let rows = select_all(&mut restarted, "pirates", NOW).unwrap().unwrap();
    assert_eq!(rows.len(), 1);
    assert_eq!(get(&rows[0], "name"), Some("Jack"));
    // A checkpoint saves the table and empties the log; the next start loads it.
    let snapshot: Vec<yuaidb::Row> = restarted.tables()[0].rows.iter().map(|r| r.copy()).collect();
    let mut again = Database::new(cfg());
    again.install_table(&"pirates".to_string(), snapshot).unwrap();
    let rows = select_all(&mut again, "pirates", NOW).unwrap().unwrap();
    assert_eq!(rows.len(), 1);
    assert_eq!(get(&rows[0], "name"), Some("Jack"));
    match op {
        WalOperation::Insert { table, values } => {
            assert_eq!(table, "pirates");
            assert_eq!(values, vec![vec![("name".to_string(), "Jack".to_string())]]);
        }
        _ => panic!("expected an insert record"),
    }
}

#[test]
fn ttl_expiry() {
    let mut name = field("name", FieldType::Text);
    name.indexed = Some(true);
    let cfg = DbConfig { tables: vec![table("pirates", vec![name])] };
    let mut db = Database::new(cfg);
    insert(&mut db, "pirates", vec![("name", "Ghost"), ("ttl", "1")], NOW).unwrap();
    let rows = select_all(&mut db, "pirates", NOW).unwrap().unwrap();
    assert_eq!(rows.len(), 1);
    assert_eq!(rows[0], vec![("name".to_string(), "Ghost".to_string())]);
    assert_eq!(db.tables()[0].rows[0].expires_at, Some(NOW + 1));
    // Two seconds later the row is gone from selects before any sweep ...
    assert_eq!(select_all(&mut db, "pirates", NOW + 2).unwrap(), None);
    assert_eq!(db.tables()[0].rows.len(), 1);
    // ... and from the table after one.
    assert_eq!(db.index_lookup("pirates", "name", "Ghost"), Some(vec![1]));
    db.cleanup_expired_rows(NOW + 2);
    assert_eq!(db.tables()[0].rows.len(), 0);
    assert_eq!(db.index_lookup("pirates", "name", "Ghost"), Some(vec![]));
}
