use sqlite_reader::database::Database;
use sqlite_reader::query::Query;
use sqlite_reader::record::Record;
use sqlite_reader::record::Value;
use sqlite_reader::varint::VarInt;

const PAGE_SIZE: usize = 4096;

fn record(values: Vec<(&str, Value)>) -> Record {
    Record {
        values: values.into_iter().map(|(n, v)| (n.to_string(), v)).collect(),
    }
}

fn table_leaf_cell(row_id: i64, rec: &Record) -> Vec<u8> {
    let payload = rec.serialize();
    let mut out = VarInt(payload.len() as i64).encode();
    out.extend_from_slice(&VarInt(row_id).encode());
    out.extend_from_slice(&payload);
    out
}

fn index_leaf_cell(rec: &Record) -> Vec<u8> {
    let payload = rec.serialize();
    let mut out = VarInt(payload.len() as i64).encode();
    out.extend_from_slice(&payload);
    out
}

/// Lay one leaf page out: header at offset 100 on the first page, the slot
/// array after it, and the cells packed from the high end.
fn leaf_page(first: bool, page_type: u8, cells: &[Vec<u8>]) -> Vec<u8> {
    let mut page = vec![0u8; PAGE_SIZE];
    let off = if first { 100 } else { 0 };
    let mut pos = PAGE_SIZE;
    let mut slots: Vec<u16> = Vec::new();
    for c in cells {
        pos -= c.len();
        page[pos..pos + c.len()].copy_from_slice(c);
        slots.push(pos as u16);
    }
    page[off] = page_type;
    page[off + 3..off + 5].copy_from_slice(&(cells.len() as u16).to_be_bytes());
    page[off + 5..off + 7].copy_from_slice(&(pos as u16).to_be_bytes());
    let mut sp = off + 8;
    for s in &slots {
        page[sp..sp + 2].copy_from_slice(&s.to_be_bytes());
        sp += 2;
    }
    page
}

fn schema_row(kind: &str, name: &str, tbl: &str, rootpage: i64, sql: &str) -> Record {
    record(vec![
        ("type", Value::Text(kind.as_bytes().to_vec())),
        ("name", Value::Text(name.as_bytes().to_vec())),
        ("tbl_name", Value::Text(tbl.as_bytes().to_vec())),
        ("rootpage", Value::Integer(rootpage)),
        ("sql", Value::Text(sql.as_bytes().to_vec())),
    ])
}

/// A file whose page 1 holds the given schema rows and whose later pages
/// are supplied whole.
fn build_file(schema_rows: &[Record], pages: &[Vec<u8>]) -> Vec<u8> {
    let cells: Vec<Vec<u8>> = schema_rows
        .iter()
        .enumerate()
        .map(|(i, r)| table_leaf_cell(i as i64 + 1, r))
        .collect();
    let mut page1 = leaf_page(true, 0x0d, &cells);
    page1[..16].copy_from_slice(b"SQLite format 3\0");
    page1[16..18].copy_from_slice(&(PAGE_SIZE as u16).to_be_bytes());
    page1[20] = 0;
    page1[28..32].copy_from_slice(&((1 + pages.len()) as u32).to_be_bytes());
    let mut file = page1;
    for p in pages {
        file.extend_from_slice(p);
    }
    file
}

fn apples_sql() -> &'static str {
    "CREATE TABLE apples (id integer primary key, name text, color text)"
}

fn apples_rows() -> Vec<(i64, &'static str, &'static str)> {
    vec![
        (1, "Granny Smith", "Light Green"),
        (2, "Golden Delicious", "Yellow"),
        (3, "Fuji", "Red"),
        (4, "Crispin", "Yellow"),
    ]
}

fn apples_page() -> Vec<u8> {
    let cells: Vec<Vec<u8>> = apples_rows()
        .into_iter()
        .map(|(id, name, color)| {
            let rec = record(vec![
                ("id", Value::Null),
                ("name", Value::Text(name.as_bytes().to_vec())),
                ("color", Value::Text(color.as_bytes().to_vec())),
            ]);
            table_leaf_cell(id, &rec)
        })
        .collect();
    leaf_page(false, 0x0d, &cells)
}

fn apples_file() -> Vec<u8> {
    build_file(
        &[schema_row("table", "apples", "apples", 2, apples_sql())],
        &[apples_page()],
    )
}

fn apples_file_with_index() -> Vec<u8> {
    let mut entries: Vec<(&str, i64)> = apples_rows()
        .into_iter()
        .map(|(id, _, color)| (color, id))
        .collect();
    entries.sort();
    let cells: Vec<Vec<u8>> = entries
        .into_iter()
        .map(|(color, id)| {
            let rec = record(vec![
                ("color", Value::Text(color.as_bytes().to_vec())),
                ("row_id", Value::Integer(id)),
            ]);
            index_leaf_cell(&rec)
        })
        .collect();
    let index_page = leaf_page(false, 0x0a, &cells);
    build_file(
        &[
            schema_row("table", "apples", "apples", 2, apples_sql()),
            schema_row(
                "index",
                "idx_apples_color",
                "apples",
                3,
                "CREATE INDEX idx_apples_color on apples (color)",
            ),
        ],
        &[apples_page(), index_page],
    )
}

fn run(query: &str, file: &[u8]) -> Vec<String> {
    let db = Database::parse_header_and_schema(file).unwrap();
    let q = Query::parse(query).unwrap();
    let rows = q.execute(&db, file).unwrap();
    rows.iter()
        .map(|row| {
            row.iter()
                .map(|v| String::from_utf8(v.render()).unwrap())
                .collect::<Vec<String>>()
                .join("|")
        })
        .collect()
}

#[test]
fn dbinfo_reports_page_size_and_table_count() {
    let sql = "CREATE TABLE t (a text)";
    let file = build_file(
        &[
            schema_row("table", "alpha", "alpha", 2, sql),
            schema_row("table", "beta", "beta", 2, sql),
            schema_row("table", "gamma", "gamma", 2, sql),
        ],
        &[apples_page()],
    );
    let db = Database::parse_header_and_schema(&file).unwrap();
    assert_eq!(db.header.page_size, 4096);
    assert_eq!(db.schema.table_count(), 3);
}

#[test]
fn tables_lists_names_sorted() {
    let sql = "CREATE TABLE t (a text)";
    let file = build_file(
        &[
            schema_row("table", "oranges", "oranges", 2, sql),
            schema_row("table", "apples", "apples", 2, sql),
            schema_row("table", "pears", "pears", 2, sql),
        ],
        &[apples_page()],
    );
    let db = Database::parse_header_and_schema(&file).unwrap();
    let joined = db.schema.table_names().join(" ");
    assert_eq!(joined, "apples oranges pears");
}

#[test]
fn count_star_counts_rows() {
    let file = apples_file();
    assert_eq!(run("SELECT COUNT(*) FROM apples", &file), vec!["4"]);
}

#[test]
fn projection_in_row_id_order() {
    let file = apples_file();
    assert_eq!(
        run("SELECT name, color FROM apples", &file),
        vec![
            "Granny Smith|Light Green",
            "Golden Delicious|Yellow",
            "Fuji|Red",
            "Crispin|Yellow",
        ]
    );
}

#[test]
fn filter_by_equality() {
    let file = apples_file();
    assert_eq!(
        run("SELECT name FROM apples WHERE color = 'Yellow'", &file),
        vec!["Golden Delicious", "Crispin"]
    );
}

#[test]
fn index_plan_matches_full_scan() {
    let plain = apples_file();
    let indexed = apples_file_with_index();
    let query = "SELECT name FROM apples WHERE color = 'Yellow'";
    assert_eq!(run(query, &indexed), run(query, &plain));
    assert_eq!(run(query, &indexed), vec!["Golden Delicious", "Crispin"]);
}

#[test]
fn search_index_collects_matching_row_ids() {
    let file = apples_file_with_index();
    let db = Database::parse_header_and_schema(&file).unwrap();
    let ids = db
        .search_index(
            &file,
            3,
            "color".to_string(),
            Value::Text(b"Yellow".to_vec()),
        )
        .unwrap();
    assert_eq!(ids, vec![2, 4]);
}

#[test]
fn targeted_fetch_keeps_exactly_the_requested_rows() {
    let file = apples_file();
    let db = Database::parse_header_and_schema(&file).unwrap();
    let recs = db.get_by_row_ids(&file, 2, &vec![4, 2]).unwrap();
    assert_eq!(recs.len(), 2);
    let names: Vec<&Value> = recs.iter().map(|r| r.get("name").unwrap()).collect();
    assert!(matches!(names[0], Value::Text(t) if t == b"Golden Delicious"));
    assert!(matches!(names[1], Value::Text(t) if t == b"Crispin"));
}

#[test]
fn rowid_column_takes_the_cells_row_id() {
    // the declared integer primary key column reads back as the row-id
    let file = apples_file();
    assert_eq!(
        run("SELECT id, name FROM apples WHERE color = 'Red'", &file),
        vec!["3|Fuji"]
    );
}

#[test]
fn missing_table_is_an_error() {
    let file = apples_file();
    let db = Database::parse_header_and_schema(&file).unwrap();
    let q = Query::parse("SELECT name FROM pears").unwrap();
    assert_eq!(
        q.execute(&db, &file),
        Err(sqlite_reader::error::DbError::NoSuchTable)
    );
}

#[test]
fn missing_column_is_an_error() {
    let file = apples_file();
    let db = Database::parse_header_and_schema(&file).unwrap();
    let q = Query::parse("SELECT flavor FROM apples").unwrap();
    assert_eq!(
        q.execute(&db, &file),
        Err(sqlite_reader::error::DbError::NoSuchColumn)
    );
}

#[test]
fn numeric_filter_literal_is_unsupported() {
    assert_eq!(
        Query::parse("SELECT name FROM apples WHERE id = 3").unwrap_err(),
        sqlite_reader::error::DbError::UnsupportedFeature
    );
}

#[test]
fn unknown_statement_is_a_parse_error() {
    assert_eq!(
        Query::parse("DROP TABLE apples").unwrap_err(),
        sqlite_reader::error::DbError::ParseError
    );
}

#[test]
fn create_parse_collects_columns() {
    let q = Query::parse(apples_sql()).unwrap();
    let cq = q.as_create().unwrap();
    assert_eq!(cq.column_names, vec!["id", "name", "color"]);
    assert_eq!(cq.ipk, Some(0));
}

#[test]
fn quoted_filter_values_join_spaces() {
    let file = apples_file();
    assert_eq!(
        run("SELECT name FROM apples WHERE color = 'Light Green'", &file),
        vec!["Granny Smith"]
    );
}

#[test]
fn oversized_payload_is_unsupported() {
    // a payload-size varint past the on-page limit trips overflow detection
    let mut cell = VarInt(100000).encode();
    cell.extend_from_slice(&VarInt(1).encode());
    cell.extend_from_slice(&[0u8; 8]);
    let page = leaf_page(false, 0x0d, &[cell]);
    let file = build_file(
        &[schema_row("table", "apples", "apples", 2, apples_sql())],
        &[page],
    );
    let db = Database::parse_header_and_schema(&file).unwrap();
    assert_eq!(
        db.get_full_table(&file, 2).unwrap_err(),
        sqlite_reader::error::DbError::UnsupportedFeature
    );
}

#[test]
fn table_names_keep_their_case() {
    // the table-name token is taken as it stands, not folded
    let file = build_file(
        &[schema_row("table", "Apples", "Apples", 2, apples_sql())],
        &[apples_page()],
    );
    assert_eq!(run("SELECT name FROM Apples WHERE color = 'Red'", &file), vec!["Fuji"]);
    let db = Database::parse_header_and_schema(&file).unwrap();
    let q = Query::parse("SELECT name FROM apples").unwrap();
    assert_eq!(
        q.execute(&db, &file).unwrap_err(),
        sqlite_reader::error::DbError::NoSuchTable
    );
}

#[test]
fn select_descriptor_fields() {
    let q = Query::parse("SELECT name, color FROM apples").unwrap();
    match q {
        Query::Select(sel) => {
            assert_eq!(sel.table_name, "apples");
            assert_eq!(sel.columns.len(), 2);
            assert_eq!(sel.columns[0].as_name().unwrap(), "name");
            assert_eq!(sel.columns[1].as_name().unwrap(), "color");
            assert_eq!(sel.filters.len(), 0);
        }
        _ => panic!("expected a SELECT"),
    }
}

#[test]
fn count_descriptor() {
    let q = Query::parse("SELECT COUNT(*) FROM apples").unwrap();
    match q {
        Query::Select(sel) => {
            assert_eq!(sel.table_name, "apples");
            assert_eq!(sel.columns.len(), 1);
            assert!(sel.columns[0].as_name().is_none());
            assert_eq!(sel.filters.len(), 0);
        }
        _ => panic!("expected a SELECT"),
    }
}

#[test]
fn filter_descriptor() {
    let q = Query::parse("SELECT name FROM apples WHERE color = 'Yellow'").unwrap();
    match q {
        Query::Select(sel) => {
            assert_eq!(sel.filters.len(), 1);
            assert_eq!(sel.filters[0].column_name, "color");
            assert!(matches!(&sel.filters[0].column_value, Value::Text(t) if t == b"Yellow"));
        }
        _ => panic!("expected a SELECT"),
    }
}

#[test]
fn quoted_literal_descriptor_spans_spaces() {
    let q = Query::parse("SELECT id FROM t WHERE c = 'Light Green'").unwrap();
    match q {
        Query::Select(sel) => {
            assert!(matches!(&sel.filters[0].column_value, Value::Text(t) if t == b"Light Green"));
        }
        _ => panic!("expected a SELECT"),
    }
}

#[test]
fn select_without_from_is_a_parse_error() {
    assert_eq!(
        Query::parse("SELECT name").unwrap_err(),
        sqlite_reader::error::DbError::ParseError
    );
}
