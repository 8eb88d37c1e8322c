//! Tests of the building blocks: encodings, pages, storage, catalog,
//! tokenizer, parser and executor results, and the laws on concrete values.

use leafdb::bytes::{ByteReader, ByteWriter};
use leafdb::catalog::{Catalog, Column, TableSchema};
use leafdb::error::Error;
use leafdb::executor::describe_columns;
use leafdb::page::{ensure_fits, max_cell_size, SlottedPage};
use leafdb::record::{decode_row, encode_row};
use leafdb::sql::ast::{Expr, Projection, Statement};
use leafdb::sql::parser::parse;
use leafdb::sql::token::{tokenize, Token};
use leafdb::storage::MemoryStorage;
use leafdb::{DataType, Database, ExecResult, Storage, Value, PAGE_SIZE};

fn rows_of(result: ExecResult) -> Vec<Vec<Value>> {
    match result {
        ExecResult::Rows { rows, .. } => rows,
        other => panic!("expected rows, got {other:?}"),
    }
}

fn count_of(result: ExecResult) -> usize {
    match result {
        ExecResult::Affected(n) => n,
        other => panic!("expected affected count, got {other:?}"),
    }
}

fn todo_db() -> Database {
    let mut db = Database::create().unwrap();
    db.execute_str("CREATE TABLE todos (id INTEGER PRIMARY KEY, title TEXT, done BOOLEAN)")
        .unwrap();
    db
}

#[test]
fn byte_writer_and_reader_round_trip() {
    let mut w = ByteWriter::new();
    w.u8(7);
    w.u16(0x1234);
    w.u32(0xDEAD_BEEF);
    w.i64(-42);
    w.string("héllo");
    w.bytes(&[1, 2, 3]);
    assert_eq!(w.len(), 1 + 2 + 4 + 8 + (4 + 6) + (4 + 3));
    assert!(!w.is_empty());
    let buf = w.into_vec();
    assert_eq!(&buf[1..3], &[0x34, 0x12]);
    let mut r = ByteReader::new(&buf);
    assert_eq!(r.u8().unwrap(), 7);
    assert_eq!(r.u16().unwrap(), 0x1234);
    assert_eq!(r.u32().unwrap(), 0xDEAD_BEEF);
    assert_eq!(r.i64().unwrap(), -42);
    assert_eq!(r.string().unwrap(), "héllo");
    assert_eq!(r.bytes().unwrap(), vec![1, 2, 3]);
    assert!(matches!(r.u8(), Err(Error::Storage(_))));
}

#[test]
fn reader_rejects_invalid_utf8() {
    let mut w = ByteWriter::new();
    w.bytes(&[0xFF, 0xFE]);
    let buf = w.into_vec();
    let mut r = ByteReader::new(&buf);
    assert!(matches!(r.string(), Err(Error::Storage(_))));
}

#[test]
fn values_and_rows_round_trip() {
    let values = vec![
        Value::Null,
        Value::Integer(i64::MIN),
        Value::Text("row".into()),
        Value::Boolean(true),
    ];
    let cell = encode_row(&values);
    assert_eq!(cell[0..4], [4, 0, 0, 0]);
    assert_eq!(decode_row(&cell).unwrap(), values);
    assert!(matches!(decode_row(&cell[..5]), Err(Error::Storage(_))));

    let mut w = ByteWriter::new();
    Value::Text("x".into()).write(&mut w);
    DataType::Boolean.write(&mut w);
    let buf = w.into_vec();
    let mut r = ByteReader::new(&buf);
    assert_eq!(Value::read(&mut r).unwrap(), Value::Text("x".into()));
    assert_eq!(DataType::read(&mut r).unwrap(), DataType::Boolean);
}

#[test]
fn value_coercion() {
    assert_eq!(Value::Integer(1).coerce_to(DataType::Boolean).unwrap(), Value::Boolean(true));
    assert_eq!(Value::Integer(0).coerce_to(DataType::Boolean).unwrap(), Value::Boolean(false));
    assert!(matches!(Value::Integer(2).coerce_to(DataType::Boolean), Err(Error::Type(_))));
    assert!(matches!(Value::Text("a".into()).coerce_to(DataType::Integer), Err(Error::Type(_))));
    assert_eq!(Value::Null.coerce_to(DataType::Text).unwrap(), Value::Null);
    assert!(Value::Null.is_null());
    assert_eq!(Value::Boolean(false).data_type(), Some(DataType::Boolean));
    assert_eq!(Value::Null.data_type(), None);
}

#[test]
fn type_keywords() {
    assert_eq!(DataType::from_keyword("varchar"), Some(DataType::Text));
    assert_eq!(DataType::from_keyword("Int"), Some(DataType::Integer));
    assert_eq!(DataType::from_keyword("bool"), Some(DataType::Boolean));
    assert_eq!(DataType::from_keyword("float"), None);
    assert_eq!(DataType::Text.as_str(), "TEXT");
}

#[test]
fn slotted_page_operations() {
    let mut page = SlottedPage::format(vec![0u8; PAGE_SIZE]);
    assert_eq!(page.num_slots(), 0);
    assert_eq!(page.free_space(), PAGE_SIZE - 8);
    assert!(page.layout_ok());
    let a = page.insert(b"alpha").unwrap();
    let b = page.insert(b"beta").unwrap();
    assert_eq!((a, b), (0, 1));
    assert_eq!(page.cell(0).unwrap(), b"alpha");
    assert_eq!(page.cell(1).unwrap(), b"beta");
    assert_eq!(page.free_space(), PAGE_SIZE - 8 - 2 * 4 - 9);
    assert_eq!(page.update(0, b"ALPHA"), Some(0));
    assert_eq!(page.cell(0).unwrap(), b"ALPHA");
    assert_eq!(page.update(1, b"longer beta"), Some(2));
    assert_eq!(page.cell(1), None);
    assert_eq!(page.cell(2).unwrap(), b"longer beta");
    page.delete(0);
    assert_eq!(page.cell(0), None);
    assert_eq!(page.cell(9), None);
    page.set_next(17);
    assert_eq!(page.next(), 17);
    assert!(page.layout_ok());
    assert!(page.cells_disjoint_ok());
    assert_eq!(page.as_bytes().len(), PAGE_SIZE);
    assert_eq!(max_cell_size(), PAGE_SIZE - 12);
    assert!(ensure_fits(max_cell_size()).is_ok());
    assert!(matches!(ensure_fits(max_cell_size() + 1), Err(Error::Storage(_))));
}

#[test]
fn page_rejects_a_cell_without_room() {
    let mut page = SlottedPage::format(vec![0u8; PAGE_SIZE]);
    let big = vec![1u8; PAGE_SIZE - 12];
    assert_eq!(page.insert(&big), Some(0));
    assert_eq!(page.insert(b"x"), None);
}

#[test]
fn memory_storage_pages() {
    let mut s = MemoryStorage::new();
    assert_eq!(s.page_count(), 0);
    assert_eq!(s.allocate_page().unwrap(), 0);
    assert_eq!(s.allocate_page().unwrap(), 1);
    let page = vec![9u8; PAGE_SIZE];
    s.write_page(1, &page).unwrap();
    let mut buf = vec![0u8; PAGE_SIZE];
    s.read_page(1, &mut buf).unwrap();
    assert_eq!(buf, page);
    s.read_page(0, &mut buf).unwrap();
    assert_eq!(buf, vec![0u8; PAGE_SIZE]);
    assert!(matches!(s.read_page(2, &mut buf), Err(Error::Storage(_))));
    assert!(matches!(s.write_page(0, &page[..10]), Err(Error::Storage(_))));
    assert_eq!(s.image().len(), 2 * PAGE_SIZE);
    assert!(matches!(MemoryStorage::from_image(vec![0u8; 10]), Err(Error::Storage(_))));
    let copy = MemoryStorage::from_image(s.image()).unwrap();
    assert_eq!(copy.page_count(), 2);
}

#[test]
fn catalog_page_round_trip() {
    let mut catalog = Catalog::new();
    let table = TableSchema {
        name: "Items".into(),
        columns: vec![
            Column { name: "id".into(), data_type: DataType::Integer, primary_key: true },
            Column { name: "label".into(), data_type: DataType::Text, primary_key: false },
        ],
        first_page: 3,
        last_page: 5,
    };
    catalog.add_table(table).unwrap();
    assert!(catalog.contains("items"));
    assert!(matches!(
        catalog.add_table(TableSchema {
            name: "ITEMS".into(),
            columns: vec![],
            first_page: 0,
            last_page: 0
        }),
        Err(Error::Catalog(_))
    ));
    let page = catalog.to_page().unwrap();
    assert_eq!(page.len(), PAGE_SIZE);
    let back = Catalog::from_page(&page).unwrap();
    assert_eq!(back, catalog);
    let t = back.get("ITEMS").unwrap();
    assert_eq!(t.column_index("LABEL"), Some(1));
    assert_eq!(t.column_index("nope"), None);
    assert_eq!(t.primary_key_index(), Some(0));
    assert_eq!((t.first_page, t.last_page), (3, 5));
    assert!(matches!(Catalog::from_page(&vec![0u8; PAGE_SIZE]), Err(Error::Storage(_))));
    let described = describe_columns(&t.columns);
    assert_eq!(
        described,
        vec![("id".to_string(), DataType::Integer), ("label".to_string(), DataType::Text)]
    );
}

#[test]
fn tokenizer_reads_every_kind_of_token() {
    let tokens = tokenize("SELECT a_1, 'it''s' FROM t WHERE x <> -12 AND y >= ? -- note\n;").unwrap();
    assert_eq!(
        tokens,
        vec![
            Token::Word("SELECT".into()),
            Token::Word("a_1".into()),
            Token::Comma,
            Token::String("it's".into()),
            Token::Word("FROM".into()),
            Token::Word("t".into()),
            Token::Word("WHERE".into()),
            Token::Word("x".into()),
            Token::NotEq,
            Token::Integer(-12),
            Token::Word("AND".into()),
            Token::Word("y".into()),
            Token::GtEq,
            Token::Question,
            Token::Semicolon,
        ]
    );
    assert!(matches!(tokenize("'open"), Err(Error::Parse(_))));
    assert!(matches!(tokenize("a @ b"), Err(Error::Parse(_))));
    assert!(matches!(tokenize("99999999999999999999"), Err(Error::Parse(_))));
}

#[test]
fn parser_builds_statements() {
    match parse("create table if not exists T (a int primary key not null, b text);").unwrap() {
        Statement::CreateTable(c) => {
            assert_eq!(c.name, "T");
            assert!(c.if_not_exists);
            assert_eq!(c.columns.len(), 2);
            assert!(c.columns[0].primary_key);
            assert_eq!(c.columns[1].data_type, DataType::Text);
        }
        other => panic!("unexpected {other:?}"),
    }
    match parse("SELECT a, b FROM t WHERE a = 1 OR b = 2 AND c = 3").unwrap() {
        Statement::Select(s) => {
            assert!(matches!(s.projection, Projection::Columns(ref c) if c.len() == 2));
            match s.filter {
                Some(Expr::Binary { op, .. }) => assert_eq!(op, leafdb::sql::ast::BinOp::Or),
                other => panic!("unexpected {other:?}"),
            }
        }
        other => panic!("unexpected {other:?}"),
    }
    match parse("INSERT INTO t (a) VALUES (1), (?)").unwrap() {
        Statement::Insert(i) => {
            assert_eq!(i.rows.len(), 2);
            assert!(matches!(i.rows[1][0], Expr::Param));
        }
        other => panic!("unexpected {other:?}"),
    }
    assert!(matches!(parse("UPDATE t SET a = 1, b = 'x' WHERE (a < 3)"), Ok(Statement::Update(_))));
    assert!(matches!(parse("DELETE FROM t"), Ok(Statement::Delete(_))));
    assert!(matches!(parse("SELECT * FROM t extra"), Err(Error::Parse(_))));
    assert!(matches!(parse("DROP TABLE t"), Err(Error::Parse(_))));
    assert!(matches!(parse("CREATE TABLE t (a FLOAT)"), Err(Error::Parse(_))));
    assert!(matches!(parse("SELECT * FROM t WHERE (a = 1"), Err(Error::Parse(_))));
}

#[test]
fn every_error_kind_has_an_input() {
    let mut db = todo_db();
    assert!(matches!(db.execute_str("SELEC * FROM todos"), Err(Error::Parse(_))));
    assert!(matches!(db.execute_str("SELECT * FROM nope"), Err(Error::Catalog(_))));
    assert!(matches!(db.execute_str("SELECT nope FROM todos"), Err(Error::Catalog(_))));
    assert!(matches!(
        db.execute_str("INSERT INTO todos VALUES (1, 2, true)"),
        Err(Error::Type(_))
    ));
    assert!(matches!(
        db.execute_str("INSERT INTO todos VALUES (1, 'a')"),
        Err(Error::Type(_))
    ));
    db.execute_str("INSERT INTO todos VALUES (1, 'a', false)").unwrap();
    assert!(matches!(
        db.execute_str("INSERT INTO todos VALUES (1, 'b', true)"),
        Err(Error::Constraint(_))
    ));
    assert!(matches!(
        db.execute("SELECT * FROM todos", &[Value::Integer(1)]),
        Err(Error::Parameter(_))
    ));
    assert!(matches!(
        Database::open_image(vec![1u8; PAGE_SIZE]),
        Err(Error::Storage(_))
    ));
    assert!(matches!(
        db.execute_str("CREATE TABLE dup (a INTEGER, A TEXT)"),
        Err(Error::Catalog(_))
    ));
    assert!(matches!(
        db.execute_str("CREATE TABLE twokeys (a INTEGER PRIMARY KEY, b INTEGER PRIMARY KEY)"),
        Err(Error::Catalog(_))
    ));
    let big = "x".repeat(PAGE_SIZE);
    assert!(matches!(
        db.execute("INSERT INTO todos VALUES (9, ?, false)", &[Value::Text(big)]),
        Err(Error::Storage(_))
    ));
}

#[test]
fn error_descriptions() {
    assert_eq!(Error::Parse("bad".into()).describe(), "parse error: bad");
    assert_eq!(Error::Storage("gone".into()).describe(), "storage error: gone");
    assert_eq!(Error::Parameter("n".into()).describe(), "parameter error: n");
}

#[test]
fn insert_then_select_gives_back_the_rows() {
    let mut db = todo_db();
    assert_eq!(
        count_of(db.execute_str("INSERT INTO todos VALUES (2, 'b', true), (1, 'a', false)").unwrap()),
        2
    );
    let out = rows_of(db.execute_str("SELECT * FROM todos").unwrap());
    assert_eq!(
        out,
        vec![
            vec![Value::Integer(2), Value::Text("b".into()), Value::Boolean(true)],
            vec![Value::Integer(1), Value::Text("a".into()), Value::Boolean(false)],
        ]
    );
}

#[test]
fn failed_insert_keeps_earlier_rows_of_the_statement() {
    let mut db = todo_db();
    let err = db
        .execute_str("INSERT INTO todos VALUES (1, 'a', false), (1, 'dup', false)")
        .unwrap_err();
    assert!(matches!(err, Error::Constraint(_)));
    let out = rows_of(db.execute_str("SELECT id FROM todos").unwrap());
    assert_eq!(out, vec![vec![Value::Integer(1)]]);
}

#[test]
fn update_cannot_duplicate_a_key() {
    let mut db = todo_db();
    db.execute_str("INSERT INTO todos VALUES (1, 'a', false), (2, 'b', false)").unwrap();
    let err = db.execute_str("UPDATE todos SET id = 2 WHERE id = 1").unwrap_err();
    assert!(matches!(err, Error::Constraint(_)));
    assert!(matches!(
        db.execute_str("UPDATE todos SET id = NULL"),
        Err(Error::Constraint(_))
    ));
    assert_eq!(count_of(db.execute_str("UPDATE todos SET id = 1 WHERE id = 1").unwrap()), 1);
    let out = rows_of(db.execute_str("SELECT id FROM todos WHERE id >= 1").unwrap());
    assert_eq!(out.len(), 2);
}

#[test]
fn single_row_key_change_succeeds_exactly_when_the_key_is_free() {
    let mut db = todo_db();
    db.execute_str("INSERT INTO todos VALUES (1, 'a', false), (2, 'b', false)").unwrap();
    assert_eq!(count_of(db.execute_str("UPDATE todos SET id = 5 WHERE id = 1").unwrap()), 1);
    assert_eq!(count_of(db.execute_str("UPDATE todos SET id = 5 WHERE id = 5").unwrap()), 1);
    assert!(matches!(
        db.execute_str("UPDATE todos SET id = 2 WHERE id = 5"),
        Err(Error::Constraint(_))
    ));
    assert_eq!(count_of(db.execute_str("UPDATE todos SET title = 'x' WHERE id = 7").unwrap()), 0);
    let out = rows_of(db.execute_str("SELECT id FROM todos").unwrap());
    assert_eq!(out, vec![vec![Value::Integer(5)], vec![Value::Integer(2)]]);
    // Two rows cannot both get the assigned key; the first keeps it.
    assert!(matches!(db.execute_str("UPDATE todos SET id = 9"), Err(Error::Constraint(_))));
    let out = rows_of(db.execute_str("SELECT id FROM todos").unwrap());
    assert_eq!(out, vec![vec![Value::Integer(9)], vec![Value::Integer(2)]]);
}

#[test]
fn comparisons_follow_sql_null_semantics() {
    let mut db = Database::create().unwrap();
    db.execute_str("CREATE TABLE t (a INTEGER, b BOOLEAN, c TEXT)").unwrap();
    db.execute_str("INSERT INTO t VALUES (1, true, 'apple'), (NULL, false, 'banana'), (3, NULL, NULL)")
        .unwrap();
    assert_eq!(rows_of(db.execute_str("SELECT a FROM t WHERE a = NULL").unwrap()).len(), 0);
    assert_eq!(rows_of(db.execute_str("SELECT a FROM t WHERE a != 1").unwrap()).len(), 1);
    assert_eq!(rows_of(db.execute_str("SELECT c FROM t WHERE b = 1").unwrap()).len(), 1);
    assert_eq!(
        rows_of(db.execute_str("SELECT c FROM t WHERE c < 'b'").unwrap()),
        vec![vec![Value::Text("apple".into())]]
    );
    assert_eq!(rows_of(db.execute_str("SELECT c FROM t WHERE c > 1").unwrap()).len(), 0);
}

#[test]
fn delete_without_filter_empties_the_table() {
    let mut db = todo_db();
    db.execute_str("INSERT INTO todos VALUES (1, 'a', false), (2, 'b', true)").unwrap();
    assert_eq!(count_of(db.execute_str("DELETE FROM todos").unwrap()), 2);
    assert_eq!(rows_of(db.execute_str("SELECT * FROM todos").unwrap()).len(), 0);
    assert_eq!(count_of(db.execute_str("DELETE FROM todos WHERE nope = 1").unwrap()), 0);
}

#[test]
fn delete_keeps_the_order_of_the_remaining_rows() {
    let mut db = todo_db();
    db.execute_str("INSERT INTO todos VALUES (3, 'c', false), (1, 'a', true), (2, 'b', false), (4, 'd', true)")
        .unwrap();
    assert_eq!(count_of(db.execute_str("DELETE FROM todos WHERE done = true").unwrap()), 2);
    let out = rows_of(db.execute_str("SELECT id FROM todos").unwrap());
    assert_eq!(out, vec![vec![Value::Integer(3)], vec![Value::Integer(2)]]);
}

#[test]
fn update_without_room_fails_and_keeps_the_row() {
    let mut db = Database::create().unwrap();
    db.execute_str("CREATE TABLE t (a TEXT)").unwrap();
    let long = "x".repeat(2000);
    db.execute_str(&format!("INSERT INTO t VALUES ('{long}'), ('{long}')")).unwrap();
    let longer = "y".repeat(2010);
    let err = db.execute_str(&format!("UPDATE t SET a = '{longer}'")).unwrap_err();
    assert!(matches!(err, Error::Storage(_)));
    let out = rows_of(db.execute_str("SELECT a FROM t").unwrap());
    assert_eq!(out, vec![vec![Value::Text(long.clone())], vec![Value::Text(long)]]);
}

#[test]
fn after_delete_the_filter_selects_nothing() {
    let mut db = todo_db();
    db.execute_str("INSERT INTO todos VALUES (1, 'a', false), (2, 'b', true), (3, 'c', true)").unwrap();
    assert_eq!(count_of(db.execute_str("DELETE FROM todos WHERE done = true OR id = 1").unwrap()), 3);
    assert_eq!(
        rows_of(db.execute_str("SELECT * FROM todos WHERE done = true OR id = 1").unwrap()).len(),
        0
    );
}

#[test]
fn update_rewrites_in_place_or_moves_to_the_end_of_the_page() {
    let mut db = todo_db();
    db.execute_str("INSERT INTO todos VALUES (1, 'a', false), (2, 'b', false), (3, 'c', false)")
        .unwrap();
    // Same encoded length: the row stays where it was.
    assert_eq!(count_of(db.execute_str("UPDATE todos SET done = true WHERE id = 1").unwrap()), 1);
    let out = rows_of(db.execute_str("SELECT id, done FROM todos").unwrap());
    assert_eq!(
        out,
        vec![
            vec![Value::Integer(1), Value::Boolean(true)],
            vec![Value::Integer(2), Value::Boolean(false)],
            vec![Value::Integer(3), Value::Boolean(false)],
        ]
    );
    // A longer cell is written to a new slot at the end of the page.
    assert_eq!(count_of(db.execute_str("UPDATE todos SET title = 'longer' WHERE id = 1").unwrap()), 1);
    let out = rows_of(db.execute_str("SELECT id, title FROM todos").unwrap());
    assert_eq!(
        out,
        vec![
            vec![Value::Integer(2), Value::Text("b".into())],
            vec![Value::Integer(3), Value::Text("c".into())],
            vec![Value::Integer(1), Value::Text("longer".into())],
        ]
    );
}

#[test]
fn unknown_column_in_filter_is_rejected_when_rows_exist() {
    let mut db = todo_db();
    db.execute_str("INSERT INTO todos VALUES (1, 'a', false)").unwrap();
    assert!(matches!(
        db.execute_str("DELETE FROM todos WHERE nope = 1"),
        Err(Error::Catalog(_))
    ));
    assert_eq!(rows_of(db.execute_str("SELECT * FROM todos").unwrap()).len(), 1);
}

#[test]
fn image_round_trip_keeps_tables_and_rows() {
    let mut db = todo_db();
    db.execute_str("INSERT INTO todos VALUES (1, 'a', false)").unwrap();
    let image = db.export_image();
    let reopened = Database::open_image(image.clone()).unwrap();
    assert_eq!(reopened.export_image(), image);
    assert_eq!(reopened.tables(), db.tables());
    assert_eq!(reopened.tables()[0].name, "todos");
}

#[test]
fn open_or_create_starts_fresh_without_an_image() {
    let fresh = Database::open_or_create(None).unwrap();
    assert_eq!(fresh.tables().len(), 0);
    assert_eq!(fresh.export_image().len(), PAGE_SIZE);
    let empty = Database::open_or_create(Some(vec![])).unwrap();
    assert_eq!(empty.export_image().len(), PAGE_SIZE);
    let mut db = todo_db();
    db.execute_str("INSERT INTO todos VALUES (5, 'e', true)").unwrap();
    let mut back = Database::open_or_create(Some(db.export_image())).unwrap();
    assert_eq!(rows_of(back.execute_str("SELECT id FROM todos").unwrap()), vec![vec![Value::Integer(5)]]);
}

#[test]
fn corrupt_images_are_refused() {
    let mut db = todo_db();
    db.execute_str("INSERT INTO todos VALUES (1, 'a', false)").unwrap();
    let mut image = db.export_image();
    // Point the heap page's link back at itself: its chain never ends.
    image[PAGE_SIZE] = 1;
    assert!(matches!(Database::open_image(image), Err(Error::Storage(_))));
    assert!(matches!(Database::open_image(vec![0u8; 100]), Err(Error::Storage(_))));
    assert!(matches!(Database::open_image(vec![]), Err(Error::Storage(_))));
}

#[test]
fn create_if_not_exists_leaves_the_table_alone() {
    let mut db = todo_db();
    db.execute_str("INSERT INTO todos VALUES (1, 'a', false)").unwrap();
    assert_eq!(count_of(db.execute_str("CREATE TABLE IF NOT EXISTS TODOS (x TEXT)").unwrap()), 0);
    assert_eq!(db.tables().len(), 1);
    assert_eq!(db.tables()[0].columns.len(), 3);
    assert!(db.execute_str("SELECT * FROM todos").is_ok());
}

#[test]
fn mutation_results_are_told_apart() {
    assert!(ExecResult::Affected(3).is_mutation());
    assert!(!ExecResult::Rows { columns: vec![], rows: vec![] }.is_mutation());
}

#[test]
fn unicode_words_and_spaces() {
    let tokens = tokenize("SELECT\u{00A0}ñame1, é_2\tFROM\u{2003}t").unwrap();
    assert_eq!(
        tokens,
        vec![
            Token::Word("SELECT".into()),
            Token::Word("ñame1".into()),
            Token::Comma,
            Token::Word("é_2".into()),
            Token::Word("FROM".into()),
            Token::Word("t".into()),
        ]
    );
    let mut catalog = Catalog::new();
    catalog
        .add_table(TableSchema {
            name: "Ünïcode".into(),
            columns: vec![Column { name: "naïve".into(), data_type: DataType::Text, primary_key: false }],
            first_page: 0,
            last_page: 0,
        })
        .unwrap();
    let back = Catalog::from_page(&catalog.to_page().unwrap()).unwrap();
    assert_eq!(back.tables()[0].name, "Ünïcode");
    assert_eq!(back.tables()[0].columns[0].name, "naïve");
}

#[test]
fn keys_stay_unique_through_a_mix_of_statements() {
    let mut db = todo_db();
    for i in 0..20 {
        db.execute(
            "INSERT INTO todos VALUES (?, ?, ?)",
            &[Value::Integer(i), Value::Text(format!("t{i}")), Value::Boolean(i % 3 == 0)],
        )
        .unwrap();
    }
    db.execute_str("DELETE FROM todos WHERE done = true").unwrap();
    db.execute_str("UPDATE todos SET id = 100 WHERE id = 1").unwrap();
    assert!(db.execute_str("UPDATE todos SET id = 100 WHERE id = 2").is_err());
    assert!(db.execute_str("INSERT INTO todos VALUES (100, 'again', false)").is_err());
    assert!(db.execute_str("INSERT INTO todos VALUES (true, 'bool key', false)").is_err());
    let out = rows_of(db.execute_str("SELECT id FROM todos").unwrap());
    let mut ids: Vec<i64> = out
        .iter()
        .map(|r| match r[0] {
            Value::Integer(i) => i,
            _ => panic!("expected an integer key"),
        })
        .collect();
    let n = ids.len();
    ids.sort();
    ids.dedup();
    assert_eq!(ids.len(), n);
    assert!(ids.contains(&100));
}

#[test]
fn error_messages_name_what_went_wrong() {
    assert_eq!(
        tokenize("SELECT 9223372036854775808").unwrap_err(),
        Error::Parse("invalid integer '9223372036854775808'".into())
    );
    assert_eq!(tokenize("SELECT #").unwrap_err(), Error::Parse("unexpected character '#'".into()));
    assert_eq!(
        parse("SELECT * FROM t; SELECT * FROM t").unwrap_err(),
        Error::Parse("unexpected trailing tokens after statement".into())
    );
    assert_eq!(
        ensure_fits(5000).unwrap_err(),
        Error::Storage("record of 5000 bytes exceeds maximum cell size 4084".into())
    );
    match MemoryStorage::from_image(vec![0u8; 10]) {
        Err(e) => assert_eq!(e, Error::Storage("image length 10 is not a multiple of page size 4096".into())),
        Ok(_) => panic!("a partial page was accepted"),
    }
    let bytes = [9u8];
    let mut r = ByteReader::new(&bytes);
    assert_eq!(DataType::read(&mut r).unwrap_err(), Error::Storage("unknown data type tag 9".into()));
    assert_eq!(
        Catalog::from_page(&vec![0u8; PAGE_SIZE]).unwrap_err(),
        Error::Storage("database image has an invalid magic header".into())
    );
    let mut catalog = Catalog::new();
    let t = TableSchema { name: "a".into(), columns: vec![], first_page: 0, last_page: 0 };
    catalog.add_table(t.clone()).unwrap();
    assert_eq!(catalog.add_table(t).unwrap_err(), Error::Catalog("table 'a' already exists".into()));
}

