use sqlite_reader::query::{render_row, QueryOutput};
use sqlite_reader::reader::SqliteReader;
use sqlite_reader::{SqliteError, UnsupportedFeature};

enum V {
    Null,
    Int(i64),
    Text(String),
}

fn t(s: &str) -> V {
    V::Text(s.to_string())
}

fn varint(v: u64) -> Vec<u8> {
    if v > 0x00ff_ffff_ffff_ffff {
        let mut groups = Vec::new();
        let mut x = v >> 8;
        for _ in 0..8 {
            groups.push((x & 0x7f) as u8 | 0x80);
            x >>= 7;
        }
        groups.reverse();
        groups.push((v & 0xff) as u8);
        return groups;
    }
    let mut groups = vec![(v & 0x7f) as u8];
    let mut x = v >> 7;
    while x > 0 {
        groups.push((x & 0x7f) as u8 | 0x80);
        x >>= 7;
    }
    groups.reverse();
    groups
}

fn record(vals: &[V]) -> Vec<u8> {
    let mut types = Vec::new();
    let mut body = Vec::new();
    for v in vals {
        match v {
            V::Null => types.extend(varint(0)),
            V::Int(i) => {
                if *i >= -128 && *i <= 127 {
                    types.extend(varint(1));
                    body.push(*i as i8 as u8);
                } else if *i >= -32768 && *i <= 32767 {
                    types.extend(varint(2));
                    body.extend((*i as i16).to_be_bytes());
                } else {
                    types.extend(varint(6));
                    body.extend(i.to_be_bytes());
                }
            }
            V::Text(s) => {
                types.extend(varint(13 + 2 * s.len() as u64));
                body.extend(s.as_bytes());
            }
        }
    }
    let mut out = varint(types.len() as u64 + 1);
    out.extend(types);
    out.extend(body);
    out
}

fn table_leaf_cell(rowid: i64, vals: &[V]) -> Vec<u8> {
    let payload = record(vals);
    let mut c = varint(payload.len() as u64);
    c.extend(varint(rowid as u64));
    c.extend(payload);
    c
}

fn table_interior_cell(left: u32, rowid: i64) -> Vec<u8> {
    let mut c = left.to_be_bytes().to_vec();
    c.extend(varint(rowid as u64));
    c
}

fn index_leaf_cell(key: &str, rowid: i64) -> Vec<u8> {
    let payload = record(&[t(key), V::Int(rowid)]);
    let mut c = varint(payload.len() as u64);
    c.extend(payload);
    c
}

fn index_interior_cell(left: u32, key: &str, rowid: i64) -> Vec<u8> {
    let payload = record(&[t(key), V::Int(rowid)]);
    let mut c = left.to_be_bytes().to_vec();
    c.extend(varint(payload.len() as u64));
    c.extend(payload);
    c
}

fn page(kind: u8, cells: &[Vec<u8>], right: Option<u32>, size: usize, first: bool) -> Vec<u8> {
    let mut buf = vec![0u8; size];
    let h = if first { 100 } else { 0 };
    let hl = if right.is_some() { 12 } else { 8 };
    let mut content = size;
    let mut offsets = Vec::new();
    for c in cells {
        content -= c.len();
        buf[content..content + c.len()].copy_from_slice(c);
        offsets.push(content as u16);
    }
    buf[h] = kind;
    buf[h + 3..h + 5].copy_from_slice(&(cells.len() as u16).to_be_bytes());
    buf[h + 5..h + 7].copy_from_slice(&((content % 65536) as u16).to_be_bytes());
    if let Some(r) = right {
        buf[h + 8..h + 12].copy_from_slice(&r.to_be_bytes());
    }
    for (i, o) in offsets.iter().enumerate() {
        let p = h + hl + 2 * i;
        buf[p..p + 2].copy_from_slice(&o.to_be_bytes());
    }
    buf
}

fn file(mut pages: Vec<Vec<u8>>, size: usize) -> Vec<u8> {
    let n = pages.len() as u32;
    let p1 = &mut pages[0];
    p1[0..16].copy_from_slice(b"SQLite format 3\0");
    let raw: u16 = if size == 65536 { 1 } else { size as u16 };
    p1[16..18].copy_from_slice(&raw.to_be_bytes());
    p1[18] = 1;
    p1[19] = 1;
    p1[21] = 64;
    p1[22] = 32;
    p1[23] = 32;
    p1[28..32].copy_from_slice(&n.to_be_bytes());
    p1[44..48].copy_from_slice(&4u32.to_be_bytes());
    p1[56..60].copy_from_slice(&1u32.to_be_bytes());
    pages.concat()
}

const APPLES_SQL: &str =
    "CREATE TABLE apples\n(\n\tid integer primary key autoincrement,\n\tname text,\n\tcolor text\n)";

fn sample_db() -> Vec<u8> {
    let size = 4096;
    let schema = vec![
        table_leaf_cell(1, &[t("table"), t("apples"), t("apples"), V::Int(2), t(APPLES_SQL)]),
        table_leaf_cell(
            2,
            &[
                t("table"),
                t("sqlite_sequence"),
                t("sqlite_sequence"),
                V::Int(3),
                t("CREATE TABLE sqlite_sequence(name,seq)"),
            ],
        ),
        table_leaf_cell(
            3,
            &[
                t("table"),
                t("oranges"),
                t("oranges"),
                V::Int(4),
                t("CREATE TABLE oranges\n(\n\tid integer primary key autoincrement,\n\tname text,\n\tdescription text\n)"),
            ],
        ),
    ];
    let apples = vec![
        table_leaf_cell(1, &[V::Null, t("Granny Smith"), t("Light Green")]),
        table_leaf_cell(2, &[V::Null, t("Fuji"), t("Red")]),
        table_leaf_cell(3, &[V::Null, t("Honeycrisp"), t("Blush Red")]),
        table_leaf_cell(4, &[V::Null, t("Golden Delicious"), t("Yellow")]),
    ];
    let seq = vec![
        table_leaf_cell(1, &[t("apples"), V::Int(4)]),
        table_leaf_cell(2, &[t("oranges"), V::Int(6)]),
    ];
    let oranges = vec![
        table_leaf_cell(1, &[V::Null, t("Mandarin"), t("great for snacking")]),
        table_leaf_cell(2, &[V::Null, t("Tangelo"), t("sweet and tart")]),
    ];
    file(
        vec![
            page(0x0d, &schema, None, size, true),
            page(0x0d, &apples, None, size, false),
            page(0x0d, &seq, None, size, false),
            page(0x0d, &oranges, None, size, false),
        ],
        size,
    )
}

fn country_of(i: i64) -> &'static str {
    if i % 5 == 2 || i == 1 {
        "eritrea"
    } else if i % 2 == 0 {
        "albania"
    } else {
        "zambia"
    }
}

/// A table B-tree of leaves of `per` rows under one interior root; returns
/// the root's page number.
fn add_table(pages: &mut Vec<Vec<u8>>, rows: &[(i64, Vec<V>)], per: usize, size: usize) -> u32 {
    let mut leaves = Vec::new();
    for chunk in rows.chunks(per) {
        let cells: Vec<Vec<u8>> = chunk.iter().map(|(id, v)| table_leaf_cell(*id, v)).collect();
        pages.push(page(0x0d, &cells, None, size, false));
        leaves.push((pages.len() as u32, chunk.last().unwrap().0));
    }
    let last = leaves.pop().unwrap();
    let cells: Vec<Vec<u8>> = leaves.iter().map(|(p, id)| table_interior_cell(*p, *id)).collect();
    pages.push(page(0x05, &cells, Some(last.0), size, false));
    pages.len() as u32
}

/// An index B-tree on `(key, rowid)` entries, leaves of `per` entries with one
/// entry between each two in the root; returns the root's page number.
fn add_index(pages: &mut Vec<Vec<u8>>, entries: &[(String, i64)], per: usize, size: usize) -> u32 {
    let mut separators = Vec::new();
    let mut leaf_pages = Vec::new();
    let mut i = 0;
    while i < entries.len() {
        let end = (i + per).min(entries.len());
        let cells: Vec<Vec<u8>> =
            entries[i..end].iter().map(|(k, id)| index_leaf_cell(k, *id)).collect();
        pages.push(page(0x0a, &cells, None, size, false));
        leaf_pages.push(pages.len() as u32);
        i = end;
        if i + 1 < entries.len() {
            separators.push(entries[i].clone());
            i += 1;
        }
    }
    let last = leaf_pages.pop().unwrap();
    let cells: Vec<Vec<u8>> = leaf_pages
        .iter()
        .zip(separators.iter())
        .map(|(p, (k, id))| index_interior_cell(*p, k, *id))
        .collect();
    pages.push(page(0x02, &cells, Some(last), size, false));
    pages.len() as u32
}

fn company_rows() -> Vec<(i64, Vec<V>)> {
    (1..=300)
        .map(|i| (i, vec![V::Null, V::Text(format!("company {i}")), t(country_of(i))]))
        .collect()
}

const COMPANIES_SQL: &str = "CREATE TABLE companies\n(\n\tid integer primary key autoincrement\n, name text, country text)";

fn large_db() -> Vec<u8> {
    let size = 1024;
    let mut pages = vec![Vec::new()];
    let companies = add_table(&mut pages, &company_rows(), 20, size);
    let mut entries: Vec<(String, i64)> =
        (1..=300).map(|i| (country_of(i).to_string(), i)).collect();
    entries.sort();
    let index = add_index(&mut pages, &entries, 20, size);
    let plain = add_table(&mut pages, &company_rows(), 20, size);
    let schema = vec![
        table_leaf_cell(
            1,
            &[t("table"), t("companies"), t("companies"), V::Int(companies as i64), t(COMPANIES_SQL)],
        ),
        table_leaf_cell(
            2,
            &[
                t("index"),
                t("idx_companies_country"),
                t("companies"),
                V::Int(index as i64),
                t("CREATE INDEX idx_companies_country\n\ton companies (country)"),
            ],
        ),
        table_leaf_cell(
            3,
            &[
                t("table"),
                t("plain"),
                t("plain"),
                V::Int(plain as i64),
                t("CREATE TABLE plain\n(\n\tid integer primary key autoincrement\n, name text, country text)"),
            ],
        ),
    ];
    pages[0] = page(0x0d, &schema, None, size, true);
    file(pages, size)
}

fn lines(out: QueryOutput) -> Vec<String> {
    match out {
        QueryOutput::Rows(rows) => rows
            .iter()
            .map(|r| String::from_utf8(render_row(r).expect("no doubles")).unwrap())
            .collect(),
        QueryOutput::Count(n) => vec![n.to_string()],
    }
}

#[test]
fn dbinfo_reports_page_size_and_schema_rows() {
    let data = sample_db();
    let rd = SqliteReader::new(&data).unwrap();
    assert_eq!(rd.dbinfo().unwrap(), (4096, 3));
}

#[test]
fn tables_lists_user_tables() {
    let data = sample_db();
    let rd = SqliteReader::new(&data).unwrap();
    assert_eq!(rd.tables().unwrap().join(" "), "apples oranges");
}

#[test]
fn count_of_apples() {
    let data = sample_db();
    let rd = SqliteReader::new(&data).unwrap();
    assert_eq!(lines(rd.query("SELECT COUNT(*) FROM apples").unwrap()), vec!["4"]);
}

#[test]
fn names_of_apples_in_row_id_order() {
    let data = sample_db();
    let rd = SqliteReader::new(&data).unwrap();
    assert_eq!(
        lines(rd.query("SELECT name FROM apples").unwrap()),
        vec!["Granny Smith", "Fuji", "Honeycrisp", "Golden Delicious"]
    );
}

#[test]
fn filter_on_color() {
    let data = sample_db();
    let rd = SqliteReader::new(&data).unwrap();
    assert_eq!(
        lines(rd.query("SELECT name, color FROM apples WHERE color = 'Yellow'").unwrap()),
        vec!["Golden Delicious|Yellow"]
    );
}

#[test]
fn keywords_in_any_case_and_trailing_semicolon() {
    let data = sample_db();
    let rd = SqliteReader::new(&data).unwrap();
    assert_eq!(
        lines(rd.query("select name from apples where color = Red;").unwrap()),
        vec!["Fuji"]
    );
}

#[test]
fn integer_primary_key_reads_the_row_id() {
    let data = sample_db();
    let rd = SqliteReader::new(&data).unwrap();
    assert_eq!(
        lines(rd.query("SELECT id, name, color FROM apples").unwrap()),
        vec![
            "1|Granny Smith|Light Green",
            "2|Fuji|Red",
            "3|Honeycrisp|Blush Red",
            "4|Golden Delicious|Yellow"
        ]
    );
}

#[test]
fn unknown_table_and_column() {
    let data = sample_db();
    let rd = SqliteReader::new(&data).unwrap();
    assert_eq!(rd.query("SELECT name FROM pears").unwrap_err(), SqliteError::UnknownTable);
    assert_eq!(rd.query("SELECT taste FROM apples").unwrap_err(), SqliteError::UnknownColumn);
    assert_eq!(
        rd.query("SELECT name FROM apples WHERE taste = 'sour'").unwrap_err(),
        SqliteError::UnknownColumn
    );
}

#[test]
fn malformed_and_unsupported_statements() {
    let data = sample_db();
    let rd = SqliteReader::new(&data).unwrap();
    assert_eq!(rd.query("SELECT name apples").unwrap_err(), SqliteError::ParseError);
    assert_eq!(rd.query("SELECT name FROM 'apples").unwrap_err(), SqliteError::ParseError);
    assert_eq!(
        rd.query("DELETE FROM apples").unwrap_err(),
        SqliteError::Unsupported(UnsupportedFeature::Statement)
    );
}

#[test]
fn header_checks() {
    let data = sample_db();
    let rd = SqliteReader::new(&data).unwrap();
    assert_eq!(rd.database_header.page_size, 4096);
    let mut bad = data.clone();
    bad[0] = b'X';
    assert_eq!(SqliteReader::new(&bad).err().unwrap(), SqliteError::NotASqliteFile);
    let mut utf16 = data.clone();
    utf16[56..60].copy_from_slice(&2u32.to_be_bytes());
    assert_eq!(
        SqliteReader::new(&utf16).err().unwrap(),
        SqliteError::Unsupported(UnsupportedFeature::Encoding)
    );
    let mut both = data.clone();
    both[56..60].copy_from_slice(&2u32.to_be_bytes());
    both[16..18].copy_from_slice(&1000u16.to_be_bytes());
    assert_eq!(
        SqliteReader::new(&both).err().unwrap(),
        SqliteError::Unsupported(UnsupportedFeature::Encoding)
    );
    let mut odd = data.clone();
    odd[16..18].copy_from_slice(&1000u16.to_be_bytes());
    assert_eq!(SqliteReader::new(&odd).err().unwrap(), SqliteError::DecodeRecord);
    assert_eq!(SqliteReader::new(&data[..50]).err().unwrap(), SqliteError::DecodeTruncated);
}

#[test]
fn page_past_the_end() {
    let data = sample_db();
    let rd = SqliteReader::new(&data).unwrap();
    assert_eq!(rd.page(5).err().unwrap(), SqliteError::IoOutOfRange);
    assert_eq!(rd.page(0).err().unwrap(), SqliteError::IoOutOfRange);
    assert_eq!(rd.page(2).unwrap().count(), 4);
}

#[test]
fn page_one_offsets_count_from_the_page_start() {
    let data = sample_db();
    let rd = SqliteReader::new(&data).unwrap();
    let p = rd.page(1).unwrap();
    assert_eq!(p.count(), 3);
    assert!(p.header.cell_content_offset > 100);
    let schema = rd.schema().unwrap();
    assert_eq!(schema.tables[0].name, "apples");
    assert_eq!(schema.tables[0].root_page, 2);
    assert_eq!(schema.tables[1].name, "oranges");
    assert_eq!(schema.tables[1].sql.contains("description"), true);
    assert_eq!(schema.tables[2].name, "sqlite_sequence");
}

#[test]
fn schema_tables_and_internal_rows_cover_page_one() {
    let data = sample_db();
    let rd = SqliteReader::new(&data).unwrap();
    let schema = rd.schema().unwrap();
    let listed = schema.tables();
    assert_eq!(listed, vec!["apples".to_string(), "oranges".to_string()]);
    let internal = schema.tables.iter().filter(|e| e.name.starts_with("sqlite_")).count();
    assert_eq!(listed.len() + internal, rd.dbinfo().unwrap().1);
}

#[test]
fn fetch_table_and_index() {
    let data = large_db();
    let rd = SqliteReader::new(&data).unwrap();
    let schema = rd.schema().unwrap();
    assert_eq!(schema.fetch_table("companies").unwrap().name, "companies");
    assert!(schema.fetch_table("idx_companies_country").is_none());
    let idx = schema.fetch_index("companies").unwrap();
    assert_eq!(idx.name, "idx_companies_country");
    assert_eq!(idx.indexes().unwrap().table_column, b"country".to_vec());
    assert!(schema.fetch_index("plain").is_none());
}

#[test]
fn index_lookup_on_country() {
    let data = large_db();
    let rd = SqliteReader::new(&data).unwrap();
    let got = lines(
        rd.query("SELECT id, name FROM companies WHERE country = 'eritrea'").unwrap(),
    );
    let want: Vec<String> = (1..=300)
        .filter(|i| country_of(*i) == "eritrea")
        .map(|i| format!("{i}|company {i}"))
        .collect();
    assert_eq!(got.len(), 61);
    assert_eq!(got, want);
}

#[test]
fn index_path_matches_full_scan() {
    let data = large_db();
    let rd = SqliteReader::new(&data).unwrap();
    for c in ["eritrea", "albania", "chad", "burundi"] {
        let via_index = lines(
            rd.query(&format!("SELECT id, name FROM companies WHERE country = '{c}'")).unwrap(),
        );
        let via_scan =
            lines(rd.query(&format!("SELECT id, name FROM plain WHERE country = '{c}'")).unwrap());
        assert_eq!(via_index, via_scan);
    }
}

#[test]
fn index_descent_matches_exhaustive_index_scan() {
    let data = large_db();
    let rd = SqliteReader::new(&data).unwrap();
    let schema = rd.schema().unwrap();
    let root = schema.fetch_index("companies").unwrap().root_page as usize;
    let found = rd.search_index(root, b"eritrea").unwrap();
    let mut all = Vec::new();
    for n in 1..=(data.len() / 1024) {
        let p = rd.page(n).unwrap();
        for c in p.cells.iter() {
            match c {
                sqlite_reader::cell::DatabaseCell::IndexLeafCell(x) => {
                    if matches!(&x.key, sqlite_reader::cell::RecordValue::String(s) if s == "eritrea") {
                        all.push(x.row_id);
                    }
                }
                sqlite_reader::cell::DatabaseCell::InteriorIndexCell(x) => {
                    if matches!(&x.key, sqlite_reader::cell::RecordValue::String(s) if s == "eritrea") {
                        all.push(x.row_id);
                    }
                }
                _ => {}
            }
        }
    }
    all.sort();
    let mut sorted = found.clone();
    sorted.sort();
    assert_eq!(sorted, all);
    assert_eq!(found, sorted);
}

#[test]
fn count_matches_scan_on_a_deep_table() {
    let data = large_db();
    let rd = SqliteReader::new(&data).unwrap();
    let root = rd.schema().unwrap().fetch_table("companies").unwrap().root_page as usize;
    assert_eq!(rd.count_rows(root).unwrap(), 300);
    assert_eq!(rd.traverse_rows(root).unwrap().len(), 300);
    assert_eq!(lines(rd.query("SELECT COUNT(*) FROM companies").unwrap()), vec!["300"]);
    assert_eq!(lines(rd.query("SELECT name FROM companies").unwrap()).len(), 300);
}

#[test]
fn rows_of_a_deep_table_come_in_row_id_order() {
    let data = large_db();
    let rd = SqliteReader::new(&data).unwrap();
    let root = rd.schema().unwrap().fetch_table("companies").unwrap().root_page as usize;
    let ids: Vec<i64> = rd.traverse_rows(root).unwrap().iter().map(|r| r.row_id).collect();
    assert_eq!(ids, (1..=300).collect::<Vec<i64>>());
    let found = rd.traverse_indexed_rows(root, &vec![7, 250, 1]).unwrap();
    assert_eq!(found.iter().map(|r| r.row_id).collect::<Vec<_>>(), vec![7, 250, 1]);
    assert_eq!(rd.traverse_indexed_rows(root, &vec![301]).unwrap().len(), 0);
}

#[test]
fn oversized_cell_is_unsupported() {
    let size = 512;
    let long = "x".repeat(600);
    let schema = vec![table_leaf_cell(
        1,
        &[t("table"), t("notes"), t("notes"), V::Int(2), t("CREATE TABLE notes (body text)")],
    )];
    let mut leaf = page(0x0d, &[], None, size, false);
    let cell = table_leaf_cell(1, &[V::Text(long)]);
    leaf[0] = 0x0d;
    leaf[3..5].copy_from_slice(&1u16.to_be_bytes());
    leaf[8..10].copy_from_slice(&(100u16).to_be_bytes());
    leaf[100..100 + 8].copy_from_slice(&cell[..8]);
    let data = file(vec![page(0x0d, &schema, None, size, true), leaf], size);
    let rd = SqliteReader::new(&data).unwrap();
    assert_eq!(
        rd.query("SELECT body FROM notes").unwrap_err(),
        SqliteError::Unsupported(UnsupportedFeature::Overflow)
    );
}

#[test]
fn query_row_filters_then_projects() {
    let data = sample_db();
    let rd = SqliteReader::new(&data).unwrap();
    let table = rd.schema().unwrap().fetch_table("apples").unwrap().columns().unwrap();
    let rows = rd.traverse_rows(2).unwrap();
    let cols = vec![b"color".to_vec(), b"id".to_vec()];
    let yellow = Some(sqlite_reader::sql::Condition {
        column: b"color".to_vec(),
        value: b"Yellow".to_vec(),
    });
    assert!(rows[0].query_row(&cols, &table.columns, &yellow).unwrap().is_none());
    let hit = rows[3].query_row(&cols, &table.columns, &yellow).unwrap().unwrap();
    assert_eq!(render_row(&hit).unwrap(), b"Yellow|4".to_vec());
    let all = rows[1].query_row(&cols, &table.columns, &None).unwrap().unwrap();
    assert_eq!(render_row(&all).unwrap(), b"Red|2".to_vec());
    let bad = vec![b"taste".to_vec()];
    assert_eq!(
        rows[1].query_row(&bad, &table.columns, &None).unwrap_err(),
        SqliteError::UnknownColumn
    );
}

#[test]
fn dot_tables_drops_every_name_with_sqlite() {
    let size = 512;
    let schema = vec![
        table_leaf_cell(1, &[t("table"), t("mysqlite"), t("mysqlite"), V::Int(2), t("CREATE TABLE mysqlite (a text)")]),
        table_leaf_cell(2, &[t("table"), t("plain"), t("plain"), V::Int(2), t("CREATE TABLE plain (a text)")]),
        table_leaf_cell(3, &[t("index"), t("plain_a"), t("plain"), V::Int(2), t("CREATE INDEX plain_a on plain (a)")]),
    ];
    let data = file(
        vec![page(0x0d, &schema, None, size, true), page(0x0d, &[], None, size, false)],
        size,
    );
    let rd = SqliteReader::new(&data).unwrap();
    assert_eq!(rd.tables().unwrap(), vec!["plain".to_string()]);
    assert_eq!(
        rd.schema().unwrap().tables(),
        vec!["mysqlite".to_string(), "plain".to_string()]
    );
    assert_eq!(rd.dbinfo().unwrap(), (512, 3));
}

#[test]
fn bad_page_flag_and_unparsable_schema_sql() {
    let size = 512;
    let schema = vec![table_leaf_cell(
        1,
        &[t("table"), t("odd"), t("odd"), V::Int(2), t("CREATE TABLE odd (a varchar(10))")],
    )];
    let rows = vec![table_leaf_cell(1, &[t("x")])];
    let data = file(
        vec![page(0x0d, &schema, None, size, true), page(0x0d, &rows, None, size, false)],
        size,
    );
    let rd = SqliteReader::new(&data).unwrap();
    assert_eq!(lines(rd.query("SELECT COUNT(*) FROM odd").unwrap()), vec!["1"]);
    assert_eq!(rd.query("SELECT a FROM odd").unwrap_err(), SqliteError::ParseError);
    let mut broken = data.clone();
    broken[size] = 0x07;
    let rd = SqliteReader::new(&broken).unwrap();
    assert_eq!(rd.page(2).err().unwrap(), SqliteError::DecodeRecord);
    assert_eq!(rd.query("SELECT COUNT(*) FROM odd").unwrap_err(), SqliteError::DecodeRecord);
}

#[test]
fn query_row_reports_unknown_column_even_when_filter_rejects() {
    let data = sample_db();
    let rd = SqliteReader::new(&data).unwrap();
    let table = rd.schema().unwrap().fetch_table("apples").unwrap().columns().unwrap();
    let rows = rd.traverse_rows(2).unwrap();
    let yellow = Some(sqlite_reader::sql::Condition {
        column: b"color".to_vec(),
        value: b"Yellow".to_vec(),
    });
    let bad = vec![b"taste".to_vec()];
    assert_eq!(
        rows[0].query_row(&bad, &table.columns, &yellow).unwrap_err(),
        SqliteError::UnknownColumn
    );
}

#[test]
fn filter_on_a_double_is_reported() {
    let size = 512;
    let schema = vec![table_leaf_cell(
        1,
        &[t("table"), t("m"), t("m"), V::Int(2), t("CREATE TABLE m (name text, w real)")],
    )];
    let mut row = vec![3u8, 19, 7];
    row.extend(b"abc");
    row.extend(2.5f64.to_be_bytes());
    let mut cell = varint(row.len() as u64);
    cell.extend(varint(1));
    cell.extend(row);
    let data = file(
        vec![page(0x0d, &schema, None, size, true), page(0x0d, &[cell], None, size, false)],
        size,
    );
    let rd = SqliteReader::new(&data).unwrap();
    assert_eq!(
        rd.query("SELECT name FROM m WHERE w = 2").unwrap_err(),
        SqliteError::Unsupported(UnsupportedFeature::RealComparison)
    );
    assert_eq!(lines(rd.query("SELECT name FROM m WHERE name = abc").unwrap()), vec!["abc"]);
}

#[test]
fn catalog_is_ordered_by_name_and_keeps_the_last_row_of_a_name() {
    let size = 512;
    let schema = vec![
        table_leaf_cell(1, &[t("table"), t("zebra"), t("zebra"), V::Int(2), t("CREATE TABLE zebra (a text)")]),
        table_leaf_cell(2, &[t("table"), t("apple"), t("apple"), V::Int(2), t("CREATE TABLE apple (a text)")]),
        table_leaf_cell(3, &[t("table"), t("mango"), t("mango"), V::Int(2), t("CREATE TABLE mango (a text)")]),
        table_leaf_cell(4, &[t("table"), t("apple"), t("apple"), V::Int(3), t("CREATE TABLE apple (b text)")]),
    ];
    let data = file(
        vec![
            page(0x0d, &schema, None, size, true),
            page(0x0d, &[], None, size, false),
            page(0x0d, &[], None, size, false),
        ],
        size,
    );
    let rd = SqliteReader::new(&data).unwrap();
    assert_eq!(rd.tables().unwrap().join(" "), "apple mango zebra");
    let schema = rd.schema().unwrap();
    assert_eq!(schema.tables.len(), 3);
    assert_eq!(schema.tables(), vec!["apple".to_string(), "mango".to_string(), "zebra".to_string()]);
    assert_eq!(schema.fetch_table("apple").unwrap().root_page, 3);
}

#[test]
fn create_statements_name_what_they_create() {
    let data = large_db();
    let rd = SqliteReader::new(&data).unwrap();
    let schema = rd.schema().unwrap();
    let table = schema.fetch_table("companies").unwrap().columns().unwrap();
    assert_eq!(table.name, b"companies".to_vec());
    let names: Vec<Vec<u8>> = table.columns.iter().map(|c| c.name.clone()).collect();
    assert_eq!(names, vec![b"id".to_vec(), b"name".to_vec(), b"country".to_vec()]);
    let idx = schema.fetch_index("companies").unwrap().indexes().unwrap();
    assert_eq!(idx.name, b"idx_companies_country".to_vec());
    assert_eq!(idx.table, b"companies".to_vec());
    assert_eq!(idx.table_column, b"country".to_vec());
    assert_eq!(
        schema.fetch_table("companies").unwrap().indexes().unwrap_err(),
        SqliteError::ParseError
    );
}
