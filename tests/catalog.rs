use matidb::database::{string_to_datatype, ColumnDef, DataType, Database};
use matidb::executor::{execute, Expr, SelectItem, SetExpr, Statement, TableFactor};

fn create(name: &str, cols: &[(&str, DataType)]) -> Statement {
    Statement::CreateTable {
        name: name.to_string(),
        columns: cols
            .iter()
            .map(|(n, t)| ColumnDef { name: n.to_string(), data_type: *t })
            .collect(),
    }
}

fn select(name: &str) -> Statement {
    Statement::Query(SetExpr::Select {
        projection: vec![SelectItem::Wildcard],
        from: vec![TableFactor::Table(name.to_string())],
    })
}

/// Flushes, then hands back the file image and the saved catalog text.
fn shut_down(db: &mut Database) -> (Vec<u8>, String) {
    db.buffer_pool.flush_all().unwrap();
    db.save_catalog();
    let text = db.take_saved_catalog().unwrap();
    (db.buffer_pool.disk().to_bytes(), text)
}

#[test]
fn reopen_exposes_tables_schemas_and_rows() {
    let mut db = Database::open(&[], None, 100);
    execute(&mut db, create("users", &[("id", DataType::Int), ("name", DataType::Text)])).unwrap();
    for i in 0..200 {
        execute(
            &mut db,
            Statement::Insert {
                table: "users".to_string(),
                source: Some(SetExpr::Values(vec![vec![
                    Expr::Number(i.to_string()),
                    Expr::SingleQuotedString(format!("User{}", i)),
                ]])),
            },
        )
        .unwrap();
    }
    let before = execute(&mut db, select("users")).unwrap();
    let (image, catalog) = shut_down(&mut db);
    drop(db);
    let mut reopened = Database::open(&image, Some(&catalog), 100);
    assert_eq!(reopened.table_names(), vec!["users".to_string()]);
    assert_eq!(execute(&mut reopened, select("users")).unwrap(), before);
    assert!(before.ends_with("(200 rows)"));
}

#[test]
fn catalog_text_round_trips() {
    let mut db = Database::open(&[], None, 10);
    execute(&mut db, create("a", &[("x", DataType::BigInt), ("y", DataType::Boolean)])).unwrap();
    execute(&mut db, create("b", &[])).unwrap();
    let (_image, text) = shut_down(&mut db);
    assert_eq!(text, "a|0|0|2\n  x|BIGINT\n  y|BOOLEAN\nb|1|1|0\n");
    let reopened = Database::open(&[], Some(&text), 10);
    assert_eq!(reopened.catalog_text(), text);
}

#[test]
fn malformed_catalog_lines_are_skipped() {
    let text = "\n   \nnot a table line\nt|3|4|3\n  c1|integer\n  broken\n  c3|weird\r\nu|x|y|z\n";
    let db = Database::open(&[], Some(text), 10);
    assert_eq!(db.table_names(), vec!["t".to_string()]);
    let t = &db.tables[0].1;
    assert_eq!(t.first_page_id, 3);
    assert_eq!(t.last_page_id, 4);
    assert_eq!(t.schema.len(), 2);
    assert_eq!(t.schema[0].name, "c1");
    assert_eq!(t.schema[0].data_type, DataType::Integer);
    assert_eq!(t.schema[1].name, "c3");
    assert_eq!(t.schema[1].data_type, DataType::Text);
}

#[test]
fn later_catalog_entry_replaces_earlier() {
    let db = Database::open(&[], Some("t|1|1|0\nt|2|5|1\n  k|TEXT\n"), 10);
    assert_eq!(db.tables.len(), 1);
    assert_eq!(db.tables[0].1.first_page_id, 2);
    assert_eq!(db.tables[0].1.last_page_id, 5);
}

#[test]
fn column_count_past_the_end_takes_what_is_there() {
    let db = Database::open(&[], Some("t|0|0|5\n  a|INT"), 10);
    assert_eq!(db.tables[0].1.schema.len(), 1);
}

#[test]
fn type_keywords_map_in_any_case() {
    assert_eq!(string_to_datatype("int"), DataType::Int);
    assert_eq!(string_to_datatype("Integer"), DataType::Integer);
    assert_eq!(string_to_datatype("SMALLINT"), DataType::SmallInt);
    assert_eq!(string_to_datatype("varchar"), DataType::Varchar);
    assert_eq!(string_to_datatype("char"), DataType::Char);
    assert_eq!(string_to_datatype("string"), DataType::Str);
    assert_eq!(string_to_datatype("FLOAT"), DataType::Text);
    assert_eq!(DataType::Integer.keyword(), "INT");
    assert_eq!(DataType::Other.keyword(), "TEXT");
}

#[test]
fn open_without_catalog_saves_after_create() {
    let mut db = Database::open(&[], None, 10);
    assert!(db.take_saved_catalog().is_none());
    execute(&mut db, create("t", &[("a", DataType::Int)])).unwrap();
    assert_eq!(db.take_saved_catalog().unwrap(), "t|0|0|1\n  a|INT\n");
    let err = execute(&mut db, create("t", &[])).unwrap_err();
    assert_eq!(err, "Table 't' already exists");
    assert!(db.take_saved_catalog().is_none());
}

#[test]
fn table_line_with_a_bad_number_is_skipped() {
    let db = Database::open(&[], Some("a|1|x|0\nb|1|2|-1\nc|7|8|0\n"), 10);
    assert_eq!(db.table_names(), vec!["c".to_string()]);
    assert_eq!(db.tables[0].1.first_page_id, 7);
}

#[test]
fn slot_outside_its_page_aborts_the_scan() {
    let mut image = vec![0u8; 4096];
    // one slot, free-space pointer 4000, no next page; slot (4095, 10)
    image[0..8].copy_from_slice(&[1, 0, 0xa0, 0x0f, 0xff, 0xff, 0xff, 0xff]);
    image[8..12].copy_from_slice(&[0xff, 0x0f, 10, 0]);
    let mut db = Database::open(&image, Some("t|0|0|1\n  a|INT\n"), 10);
    let err = execute(&mut db, select("t")).unwrap_err();
    assert_eq!(err, "Failed to deserialize row: slot lies outside the page");
}
