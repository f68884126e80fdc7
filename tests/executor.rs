use matidb::buffer::BufferPool;
use matidb::database::{ColumnDef, DataType, Database};
use matidb::executor::{execute, Expr, SelectItem, SetExpr, Statement, TableFactor};
use matidb::storage::DiskManager;

fn test_db() -> Database {
    Database::with_buffer_pool(BufferPool::new(DiskManager::open(&[]), 100))
}

fn col(name: &str, data_type: DataType) -> ColumnDef {
    ColumnDef { name: name.to_string(), data_type }
}

/// CREATE TABLE users (id INT, name TEXT)
fn create_users() -> Statement {
    Statement::CreateTable {
        name: "users".to_string(),
        columns: vec![col("id", DataType::Int), col("name", DataType::Text)],
    }
}

fn user(id: i64, name: &str) -> Vec<Expr> {
    vec![Expr::Number(id.to_string()), Expr::SingleQuotedString(name.to_string())]
}

/// INSERT INTO users VALUES ...
fn insert_users(rows: Vec<Vec<Expr>>) -> Statement {
    Statement::Insert { table: "users".to_string(), source: Some(SetExpr::Values(rows)) }
}

/// SELECT * FROM users
fn select_users() -> Statement {
    Statement::Query(SetExpr::Select {
        projection: vec![SelectItem::Wildcard],
        from: vec![TableFactor::Table("users".to_string())],
    })
}

#[test]
fn test_create_table() {
    let mut db = test_db();
    let result = execute(&mut db, create_users());
    assert!(result.is_ok());
    assert_eq!(result.unwrap(), "Table 'users' created");
    assert!(db.has_table(&"users".to_string()));
}

#[test]
fn test_create_table_already_exists() {
    let mut db = test_db();
    let create = || Statement::CreateTable {
        name: "users".to_string(),
        columns: vec![col("id", DataType::Int)],
    };
    execute(&mut db, create()).unwrap();
    let result = execute(&mut db, create());
    assert!(result.is_err());
    assert_eq!(result.unwrap_err(), "Table 'users' already exists");
}

#[test]
fn test_insert_single_row() {
    let mut db = test_db();
    execute(&mut db, create_users()).unwrap();
    let result = execute(&mut db, insert_users(vec![user(1, "Alice")]));
    assert!(result.is_ok());
    assert_eq!(result.unwrap(), "Inserted 1 row(s)");
}

#[test]
fn test_insert_multiple_rows() {
    let mut db = test_db();
    execute(&mut db, create_users()).unwrap();
    let result = execute(&mut db, insert_users(vec![user(1, "Alice"), user(2, "Bob")]));
    assert!(result.is_ok());
    assert_eq!(result.unwrap(), "Inserted 2 row(s)");
}

#[test]
fn test_insert_into_nonexistent_table() {
    let mut db = test_db();
    let result = execute(&mut db, insert_users(vec![user(1, "Alice")]));
    assert!(result.is_err());
    assert_eq!(result.unwrap_err(), "Table 'users' does not exist");
}

#[test]
fn test_select_empty_table() {
    let mut db = test_db();
    execute(&mut db, create_users()).unwrap();
    let result = execute(&mut db, select_users());
    assert!(result.is_ok());
    assert!(result.unwrap().contains("(0 rows)"));
}

#[test]
fn test_select_with_data() {
    let mut db = test_db();
    execute(&mut db, create_users()).unwrap();
    execute(&mut db, insert_users(vec![user(1, "Alice")])).unwrap();
    execute(&mut db, insert_users(vec![user(2, "Bob")])).unwrap();
    let result = execute(&mut db, select_users()).unwrap();
    assert!(result.contains("Alice"));
    assert!(result.contains("Bob"));
    assert!(result.contains("(2 rows)"));
}

#[test]
fn test_insert_many_rows_multiple_pages() {
    let mut db = test_db();
    execute(&mut db, create_users()).unwrap();
    for i in 0..500 {
        execute(&mut db, insert_users(vec![user(i, &format!("User{}", i))])).unwrap();
    }
    let result = execute(&mut db, select_users()).unwrap();
    assert!(result.contains("(500 rows)"));
    assert!(result.contains("User0"));
    assert!(result.contains("User499"));
    assert!(db.buffer_pool.next_page_id() >= 2);
}

#[test]
fn test_insert_5000_rows() {
    let mut db = test_db();
    execute(&mut db, create_users()).unwrap();
    for batch in 0..50 {
        let mut batch_values = Vec::new();
        for i in 0..100 {
            let id = batch * 100 + i;
            batch_values.push(user(id, &format!("User{}", id)));
        }
        execute(&mut db, insert_users(batch_values)).unwrap();
    }
    let result = execute(&mut db, select_users()).unwrap();
    assert!(result.contains("(5000 rows)"));
}

#[test]
fn select_output_is_exact_and_in_insertion_order() {
    let mut db = test_db();
    execute(&mut db, create_users()).unwrap();
    execute(&mut db, insert_users(vec![user(1, "Alice"), user(-2, "Bob")])).unwrap();
    execute(
        &mut db,
        insert_users(vec![vec![Expr::Number("3".to_string()), Expr::DoubleQuotedString("Cy".to_string()), Expr::Boolean(false)]]),
    )
    .unwrap();
    let result = execute(&mut db, select_users()).unwrap();
    assert_eq!(
        result,
        "id\tname\n--------------------\n1\tAlice\n-2\tBob\n3\tCy\tfalse\n(3 rows)"
    );
}

#[test]
fn rows_keep_their_order_across_pages() {
    let mut db = test_db();
    execute(&mut db, create_users()).unwrap();
    for i in 0..300 {
        execute(&mut db, insert_users(vec![user(i, "some longer name to fill pages")])).unwrap();
    }
    let result = execute(&mut db, select_users()).unwrap();
    let ids: Vec<i64> = result
        .lines()
        .skip(2)
        .take(300)
        .map(|l| l.split('\t').next().unwrap().parse().unwrap())
        .collect();
    assert_eq!(ids, (0..300).collect::<Vec<i64>>());
    assert!(db.buffer_pool.next_page_id() >= 3);
}

#[test]
fn small_pool_keeps_rows_through_eviction() {
    let mut db = Database::with_buffer_pool(BufferPool::new(DiskManager::open(&[]), 2));
    execute(&mut db, create_users()).unwrap();
    execute(
        &mut db,
        Statement::CreateTable { name: "other".to_string(), columns: vec![col("x", DataType::Boolean)] },
    )
    .unwrap();
    for i in 0..400 {
        execute(&mut db, insert_users(vec![user(i, "name")])).unwrap();
        execute(
            &mut db,
            Statement::Insert {
                table: "other".to_string(),
                source: Some(SetExpr::Values(vec![vec![Expr::Boolean(i % 2 == 0)]])),
            },
        )
        .unwrap();
    }
    let users = execute(&mut db, select_users()).unwrap();
    assert!(users.ends_with("(400 rows)"));
    let other = execute(
        &mut db,
        Statement::Query(SetExpr::Select {
            projection: vec![SelectItem::Wildcard],
            from: vec![TableFactor::Table("other".to_string())],
        }),
    )
    .unwrap();
    assert!(other.starts_with("x\n----------\ntrue\nfalse\n"));
    assert!(other.ends_with("(400 rows)"));
}

#[test]
fn expression_errors_are_reported() {
    let mut db = test_db();
    execute(&mut db, create_users()).unwrap();
    let err = |e: Expr| execute(&mut test_db_with_users(), insert_users(vec![vec![e]])).unwrap_err();
    assert_eq!(err(Expr::Null), "NULL not supported yet");
    assert_eq!(err(Expr::Number("1.5".to_string())), "Invalid number: 1.5");
    assert_eq!(err(Expr::Number("99999999999999999999".to_string())), "Invalid number: 99999999999999999999");
    assert_eq!(err(Expr::OtherValue("X".to_string())), "Unsupported value type: X");
    assert_eq!(err(Expr::Other("a + b".to_string())), "Unsupported expression: a + b");
}

fn test_db_with_users() -> Database {
    let mut db = test_db();
    execute(&mut db, create_users()).unwrap();
    db
}

#[test]
fn statement_shape_errors() {
    let mut db = test_db_with_users();
    assert_eq!(execute(&mut db, Statement::Other).unwrap_err(), "Unsupported statement");
    assert_eq!(
        execute(&mut db, Statement::Insert { table: "users".to_string(), source: None }).unwrap_err(),
        "INSERT requires VALUES"
    );
    assert_eq!(
        execute(&mut db, Statement::Insert { table: "users".to_string(), source: Some(SetExpr::Other) })
            .unwrap_err(),
        "Only INSERT ... VALUES is supported"
    );
    assert_eq!(execute(&mut db, Statement::Query(SetExpr::Other)).unwrap_err(), "Only SELECT is supported");
    assert_eq!(
        execute(&mut db, Statement::Query(SetExpr::Select { projection: vec![SelectItem::Wildcard], from: vec![] }))
            .unwrap_err(),
        "SELECT requires a FROM clause"
    );
    assert_eq!(
        execute(
            &mut db,
            Statement::Query(SetExpr::Select { projection: vec![SelectItem::Wildcard], from: vec![TableFactor::Other] })
        )
        .unwrap_err(),
        "Only simple table references are supported"
    );
    assert_eq!(
        execute(
            &mut db,
            Statement::Query(SetExpr::Select {
                projection: vec![SelectItem::Wildcard],
                from: vec![TableFactor::Table("nope".to_string())]
            })
        )
        .unwrap_err(),
        "Table 'nope' does not exist"
    );
    assert_eq!(
        execute(
            &mut db,
            Statement::Query(SetExpr::Select {
                projection: vec![SelectItem::Other],
                from: vec![TableFactor::Table("users".to_string())]
            })
        )
        .unwrap_err(),
        "Only SELECT * is supported for now"
    );
}

#[test]
fn oversized_tuple_is_rejected() {
    let mut db = test_db_with_users();
    let big = "x".repeat(5000);
    let err = execute(&mut db, insert_users(vec![vec![Expr::SingleQuotedString(big)]])).unwrap_err();
    assert_eq!(err, "Tuple too large for page: Page full");
}

#[test]
fn select_without_columns_prints_an_empty_header() {
    let mut db = test_db();
    execute(&mut db, Statement::CreateTable { name: "t".to_string(), columns: vec![] }).unwrap();
    let out = execute(
        &mut db,
        Statement::Query(SetExpr::Select {
            projection: vec![SelectItem::Wildcard],
            from: vec![TableFactor::Table("t".to_string())],
        }),
    )
    .unwrap();
    assert_eq!(out, "\n\n(0 rows)");
}

#[test]
fn catalog_text_lists_tables_and_columns() {
    let mut db = test_db_with_users();
    execute(&mut db, insert_users(vec![user(1, "A")])).unwrap();
    assert_eq!(db.catalog_text(), "users|0|0|2\n  id|INT\n  name|TEXT\n");
}

#[test]
fn largest_row_is_stored_and_one_more_byte_is_not() {
    let mut db = test_db_with_users();
    // tag, four length bytes and the text: 4084 bytes in all
    let fits = "x".repeat(4079);
    let ok = execute(&mut db, insert_users(vec![vec![Expr::SingleQuotedString(fits.clone())]]));
    assert_eq!(ok.unwrap(), "Inserted 1 row(s)");
    let too_big = "x".repeat(4080);
    let err = execute(&mut db, insert_users(vec![vec![Expr::SingleQuotedString(too_big)]]));
    assert_eq!(err.unwrap_err(), "Tuple too large for page: Page full");
    let out = execute(&mut db, select_users()).unwrap();
    assert!(out.contains(&fits));
    assert!(out.ends_with("(1 rows)"));
}
