//! The schema catalog: the rows of the schema table on page 1.
use crate::cell::{record_int, CellModel, DatabaseCell, RecordValue, Value};
use crate::error::SqliteError;
use crate::page::{cells_view, BTreePage, BTreePageType, PageModel};
use crate::reader::SqliteReader;
use crate::text::{
    bytes_equal, compare_bytes, has_prefix, lemma_lex_cmp_antisym, lemma_lex_cmp_eq,
    lemma_lex_cmp_trans, lex_cmp, starts_with,
};
use vstd::prelude::*;
use vstd::utf8::{encode_utf8, encode_utf8_decode_utf8};

verus! {

/// One row of the schema table, as plain values.
pub struct SchemaEntry {
    pub kind: Seq<char>,
    pub name: Seq<char>,
    pub table_name: Seq<char>,
    pub root_page: int,
    pub sql: Seq<char>,
}

/// The text of a value; a NULL stands for the empty text.
pub open spec fn text_or_empty(v: Value) -> Option<Seq<char>> {
    match v {
        Value::Text(t) => Some(t),
        Value::Null => Some(Seq::empty()),
        _ => None,
    }
}

/// The schema row that a cell of page 1 holds: `(type, name, tbl_name,
/// rootpage, sql)`, where `sql` may be NULL.
pub open spec fn spec_entry(c: CellModel) -> Result<SchemaEntry, SqliteError> {
    match c {
        CellModel::TableLeaf { values, .. } => if values.len() == 5 && values[0] is Text
            && values[1] is Text && values[2] is Text && values[3] is Int && 0 <= values[3]->Int_0
            <= u64::MAX && text_or_empty(values[4]) is Some {
            Ok(
                SchemaEntry {
                    kind: values[0]->Text_0,
                    name: values[1]->Text_0,
                    table_name: values[2]->Text_0,
                    root_page: values[3]->Int_0,
                    sql: text_or_empty(values[4])->Some_0,
                },
            )
        } else {
            Err(SqliteError::DecodeRecord)
        },
        _ => Err(SqliteError::DecodeRecord),
    }
}

/// The schema rows of the cells `cells[..n]`, or the first error.
pub open spec fn spec_entries(cells: Seq<CellModel>, n: int) -> Result<Seq<SchemaEntry>, SqliteError>
    decreases n,
{
    if n <= 0 || n > cells.len() {
        Ok(Seq::empty())
    } else {
        match spec_entries(cells, n - 1) {
            Err(e) => Err(e),
            Ok(es) => match spec_entry(cells[n - 1]) {
                Err(e) => Err(e),
                Ok(x) => Ok(es.push(x)),
            },
        }
    }
}

/// The schema of the database whose page 1 is `p`.
#[verifier::opaque]
pub open spec fn spec_schema(p: PageModel) -> Result<Seq<SchemaEntry>, SqliteError> {
    if p.header.page_type != BTreePageType::LeafTable {
        Err(SqliteError::DecodeRecord)
    } else {
        spec_entries(p.cells, p.cells.len() as int)
    }
}

/// A row of the schema table.
#[derive(Debug)]
pub struct SchemaTable {
    /// `table`, `index`, `view` or `trigger`.
    pub sqlite_type: String,
    pub name: String,
    /// The table that the entry belongs to.
    pub table_name: String,
    /// The root page of its B-tree, counted from 1; 0 where it has none.
    pub root_page: u64,
    /// The statement that created it; empty where none is stored.
    pub sql: String,
}

impl View for SchemaTable {
    type V = SchemaEntry;

    open spec fn view(&self) -> SchemaEntry {
        SchemaEntry {
            kind: self.sqlite_type@,
            name: self.name@,
            table_name: self.table_name@,
            root_page: self.root_page as int,
            sql: self.sql@,
        }
    }
}

pub open spec fn entries_view(v: Seq<SchemaTable>) -> Seq<SchemaEntry> {
    v.map_values(|t: SchemaTable| t@)
}

pub open spec fn is_table(e: SchemaEntry) -> bool {
    e.kind == "table"@
}

pub open spec fn is_index(e: SchemaEntry) -> bool {
    e.kind == "index"@
}

/// A name that SQLite keeps for itself.
pub open spec fn is_internal(e: SchemaEntry) -> bool {
    starts_with(encode_utf8(e.name), encode_utf8("sqlite_"@))
}

/// The names of the entries of `es` that satisfy `p`, in order.
pub open spec fn names_where(es: Seq<SchemaEntry>, p: spec_fn(SchemaEntry) -> bool) -> Seq<Seq<char>>
    decreases es.len(),
{
    if es.len() == 0 {
        Seq::empty()
    } else if p(es.last()) {
        names_where(es.drop_last(), p).push(es.last().name)
    } else {
        names_where(es.drop_last(), p)
    }
}

/// The names of the user tables among `es`, in order.
pub open spec fn user_tables(es: Seq<SchemaEntry>) -> Seq<Seq<char>> {
    names_where(es, |e: SchemaEntry| is_table(e) && !is_internal(e))
}

/// The bytes that order entries: their names, as UTF-8.
pub open spec fn name_key(e: SchemaEntry) -> Seq<u8> {
    encode_utf8(e.name)
}

/// Strictly increasing by name bytes, so no name occurs twice.
pub open spec fn sorted_by_name(es: Seq<SchemaEntry>) -> bool {
    forall|i: int, j: int|
        0 <= i < j < es.len() ==> lex_cmp(name_key(#[trigger] es[i]), name_key(#[trigger] es[j])) < 0
}

/// Names strictly increasing as UTF-8 bytes.
pub open spec fn names_sorted(ns: Seq<Seq<char>>) -> bool {
    forall|i: int, j: int|
        0 <= i < j < ns.len() ==> lex_cmp(encode_utf8(#[trigger] ns[i]), encode_utf8(#[trigger] ns[j]))
            < 0
}

/// `x` put into the name-ordered `es`, searching from position `i`: it
/// replaces the entry of the same name, else goes before the first greater
/// name.
pub open spec fn insert_by_name(es: Seq<SchemaEntry>, x: SchemaEntry, i: int) -> Seq<SchemaEntry>
    decreases es.len() - i,
{
    if i < 0 || i >= es.len() {
        es.push(x)
    } else if lex_cmp(name_key(x), name_key(es[i])) == 0 {
        es.update(i, x)
    } else if lex_cmp(name_key(x), name_key(es[i])) < 0 {
        es.insert(i, x)
    } else {
        insert_by_name(es, x, i + 1)
    }
}

/// The catalog of the schema rows `rows`: one entry per name, the last row
/// of that name, in name order.
pub open spec fn catalog_of(rows: Seq<SchemaEntry>) -> Seq<SchemaEntry>
    decreases rows.len(),
{
    if rows.len() == 0 {
        Seq::empty()
    } else {
        insert_by_name(catalog_of(rows.drop_last()), rows.last(), 0)
    }
}

proof fn lemma_insert_sorted(es: Seq<SchemaEntry>, x: SchemaEntry, i: int)
    requires
        sorted_by_name(es),
        0 <= i <= es.len(),
        forall|j: int| 0 <= j < i ==> lex_cmp(name_key(#[trigger] es[j]), name_key(x)) < 0,
    ensures
        sorted_by_name(insert_by_name(es, x, i)),
    decreases es.len() - i,
{
    let r = insert_by_name(es, x, i);
    if i == es.len() {
        assert forall|a: int, b: int| 0 <= a < b < r.len() implies lex_cmp(
            name_key(#[trigger] r[a]),
            name_key(#[trigger] r[b]),
        ) < 0 by {
            if b < es.len() {
                assert(r[a] == es[a] && r[b] == es[b]);
            } else {
                assert(r[a] == es[a] && r[b] == x);
            }
        }
    } else {
        let c = lex_cmp(name_key(x), name_key(es[i]));
        lemma_lex_cmp_antisym(name_key(x), name_key(es[i]));
        if c == 0 {
            lemma_lex_cmp_eq(name_key(x), name_key(es[i]));
            assert forall|a: int, b: int| 0 <= a < b < r.len() implies lex_cmp(
                name_key(#[trigger] r[a]),
                name_key(#[trigger] r[b]),
            ) < 0 by {
                assert(name_key(r[a]) == name_key(es[a]));
                assert(name_key(r[b]) == name_key(es[b]));
            }
        } else if c < 0 {
            assert forall|a: int, b: int| 0 <= a < b < r.len() implies lex_cmp(
                name_key(#[trigger] r[a]),
                name_key(#[trigger] r[b]),
            ) < 0 by {
                if b < i {
                    assert(r[a] == es[a] && r[b] == es[b]);
                } else if b == i {
                    assert(r[a] == es[a] && r[b] == x);
                } else if a < i {
                    assert(r[a] == es[a] && r[b] == es[b - 1]);
                    lemma_lex_cmp_trans(name_key(es[a]), name_key(x), name_key(es[i]));
                    if b - 1 > i {
                        lemma_lex_cmp_trans(name_key(es[a]), name_key(es[i]), name_key(es[b - 1]));
                    }
                } else if a == i {
                    assert(r[a] == x && r[b] == es[b - 1]);
                    if b - 1 > i {
                        lemma_lex_cmp_trans(name_key(x), name_key(es[i]), name_key(es[b - 1]));
                    }
                } else {
                    assert(r[a] == es[a - 1] && r[b] == es[b - 1]);
                }
            }
        } else {
            lemma_insert_sorted(es, x, i + 1);
        }
    }
}

proof fn lemma_catalog_sorted(rows: Seq<SchemaEntry>)
    ensures
        sorted_by_name(catalog_of(rows)),
    decreases rows.len(),
{
    if rows.len() > 0 {
        lemma_catalog_sorted(rows.drop_last());
        lemma_insert_sorted(catalog_of(rows.drop_last()), rows.last(), 0);
    }
}

/// The names of a name-ordered catalog that satisfy `p` are strictly
/// increasing, each the name of some entry.
pub proof fn lemma_names_where_sorted(es: Seq<SchemaEntry>, p: spec_fn(SchemaEntry) -> bool)
    requires
        sorted_by_name(es),
    ensures
        names_sorted(names_where(es, p)),
        forall|k: int|
            0 <= k < names_where(es, p).len() ==> exists|j: int|
                0 <= j < es.len() && (#[trigger] names_where(es, p)[k]) == es[j].name,
    decreases es.len(),
{
    if es.len() > 0 {
        let d = es.drop_last();
        assert(sorted_by_name(d)) by {
            assert forall|a: int, b: int| 0 <= a < b < d.len() implies lex_cmp(
                name_key(#[trigger] d[a]),
                name_key(#[trigger] d[b]),
            ) < 0 by {
                assert(d[a] == es[a] && d[b] == es[b]);
            }
        }
        lemma_names_where_sorted(d, p);
        let nd = names_where(d, p);
        let n = names_where(es, p);
        if p(es.last()) {
            assert forall|k: int| 0 <= k < n.len() implies exists|j: int|
                0 <= j < es.len() && (#[trigger] n[k]) == es[j].name by {
                if k < nd.len() {
                    let j = choose|j: int| 0 <= j < d.len() && nd[k] == d[j].name;
                    assert(n[k] == es[j].name);
                } else {
                    assert(n[k] == es[es.len() - 1].name);
                }
            }
            assert forall|a: int, b: int| 0 <= a < b < n.len() implies lex_cmp(
                encode_utf8(#[trigger] n[a]),
                encode_utf8(#[trigger] n[b]),
            ) < 0 by {
                if b < nd.len() {
                    assert(n[a] == nd[a] && n[b] == nd[b]);
                } else {
                    let j = choose|j: int| 0 <= j < d.len() && nd[a] == d[j].name;
                    assert(n[a] == es[j].name);
                    assert(n[b] == es[es.len() - 1].name);
                    assert(lex_cmp(name_key(es[j]), name_key(es[es.len() - 1])) < 0);
                }
            }
        } else {
            assert forall|k: int| 0 <= k < n.len() implies exists|j: int|
                0 <= j < es.len() && (#[trigger] n[k]) == es[j].name by {
                let j = choose|j: int| 0 <= j < d.len() && nd[k] == d[j].name;
                assert(n[k] == es[j].name);
            }
        }
    }
}

/// The number of entries of `es` with internal names.
pub open spec fn internal_count(es: Seq<SchemaEntry>) -> nat
    decreases es.len(),
{
    if es.len() == 0 {
        0
    } else if is_internal(es.last()) {
        internal_count(es.drop_last()) + 1
    } else {
        internal_count(es.drop_last())
    }
}

/// The first entry of `es` that satisfies `f`.
#[verifier::opaque]
pub open spec fn first_where(es: Seq<SchemaEntry>, f: spec_fn(SchemaEntry) -> bool) -> Option<int> {
    if exists|i: int| 0 <= i < es.len() && f(es[i]) {
        Some(choose|i: int| 0 <= i < es.len() && f(es[i]) && forall|j: int| 0 <= j < i ==> !f(es[j]))
    } else {
        None
    }
}

/// Moves the text out of `v`; a NULL gives the empty string.
fn take_text(v: RecordValue) -> (r: Option<String>)
    ensures
        r is Some <==> text_or_empty(v@) is Some,
        r is Some ==> r->Some_0@ == text_or_empty(v@)->Some_0,
{
    match v {
        RecordValue::String(s) => Some(s),
        RecordValue::Null => Some(String::new()),
        _ => None,
    }
}

impl SchemaTable {
    /// Reads the schema row that a cell of page 1 holds.
    pub fn new(cell: DatabaseCell) -> (r: Result<SchemaTable, SqliteError>)
        ensures
            match r {
                Ok(t) => spec_entry(cell@) == Ok::<SchemaEntry, SqliteError>(t@),
                Err(e) => spec_entry(cell@) == Err::<SchemaEntry, SqliteError>(e),
            },
    {
        let mut values = match cell {
            DatabaseCell::LeafCell(c) => c.payload,
            _ => {
                return Err(SqliteError::DecodeRecord);
            },
        };
        let ghost vs = crate::cell::values_view(values@);
        if values.len() != 5 {
            return Err(SqliteError::DecodeRecord);
        }
        let root_page = match record_int(&values[3]) {
            Some(n) => n,
            None => {
                return Err(SqliteError::DecodeRecord);
            },
        };
        let sql_v = values.pop().unwrap();
        let _ = values.pop();
        let tbl_v = values.pop().unwrap();
        let name_v = values.pop().unwrap();
        let kind_v = values.pop().unwrap();
        assert(kind_v@ == vs[0] && name_v@ == vs[1] && tbl_v@ == vs[2] && sql_v@ == vs[4]);
        let sqlite_type = match kind_v {
            RecordValue::String(s) => s,
            _ => {
                return Err(SqliteError::DecodeRecord);
            },
        };
        let name = match name_v {
            RecordValue::String(s) => s,
            _ => {
                return Err(SqliteError::DecodeRecord);
            },
        };
        let table_name = match tbl_v {
            RecordValue::String(s) => s,
            _ => {
                return Err(SqliteError::DecodeRecord);
            },
        };
        if root_page < 0 {
            return Err(SqliteError::DecodeRecord);
        }
        let sql = match take_text(sql_v) {
            Some(s) => s,
            None => {
                return Err(SqliteError::DecodeRecord);
            },
        };
        Ok(SchemaTable { sqlite_type, name, table_name, root_page: root_page as u64, sql })
    }
}

/// Whether `s` is the text `w`, compared by their UTF-8 bytes.
pub fn text_is(s: &String, w: &str) -> (r: bool)
    ensures
        r == (s@ == w@),
{
    proof {
        encode_utf8_decode_utf8(s@);
        encode_utf8_decode_utf8(w@);
    }
    bytes_equal(s.as_str().as_bytes(), w.as_bytes())
}

/// The schema catalog: one entry per name, in the order of the names' bytes.
#[derive(Debug)]
pub struct SqliteSchema {
    pub tables: Vec<SchemaTable>,
}

impl View for SqliteSchema {
    type V = Seq<SchemaEntry>;

    open spec fn view(&self) -> Seq<SchemaEntry> {
        entries_view(self.tables@)
    }
}

/// Puts `t` into the name-ordered `v`: it replaces the entry of the same
/// name, else goes before the first greater name.
fn insert_entry(v: &mut Vec<SchemaTable>, t: SchemaTable)
    ensures
        entries_view(final(v)@) == insert_by_name(entries_view(old(v)@), t@, 0),
{
    let ghost es = entries_view(v@);
    let mut i: usize = 0;
    let mut c: i8 = 1;
    while i < v.len() && c > 0
        invariant
            es == entries_view(v@),
            i <= v@.len(),
            c > 0 ==> insert_by_name(es, t@, 0) == insert_by_name(es, t@, i as int),
            c <= 0 ==> i < v@.len() && c as int == lex_cmp(name_key(t@), name_key(es[i as int]))
                && insert_by_name(es, t@, 0) == insert_by_name(es, t@, i as int),
        decreases v@.len() - i + (if c > 0 { 1int } else { 0int }),
    {
        assert(es[i as int] == v@[i as int]@);
        c = compare_bytes(t.name.as_str().as_bytes(), v[i].name.as_str().as_bytes());
        if c > 0 {
            i = i + 1;
        }
    }
    if c > 0 {
        assert(entries_view(v@.push(t)) =~= es.push(t@));
        v.push(t);
    } else if c == 0 {
        let _ = v.remove(i);
        v.insert(i, t);
        assert(entries_view(v@) =~= es.update(i as int, t@));
    } else {
        v.insert(i, t);
        assert(entries_view(v@) =~= es.insert(i as int, t@));
    }
}

impl SqliteSchema {
    /// No name occurs twice, and the entries go by name.
    pub open spec fn wf(&self) -> bool {
        sorted_by_name(self@)
    }

    /// Reads the schema from page 1, a table leaf page whose every cell is a
    /// schema row: one entry per name, the last row of that name, in the order
    /// of the names' bytes.
    pub fn new(page: BTreePage) -> (r: Result<SqliteSchema, SqliteError>)
        ensures
            match r {
                Ok(s) => spec_schema(page@) is Ok && s@ == catalog_of(spec_schema(page@)->Ok_0)
                    && s.wf(),
                Err(e) => spec_schema(page@) == Err::<Seq<SchemaEntry>, SqliteError>(e),
            },
    {
        reveal(spec_schema);
        let ghost model = page@;
        if page.header.page_type != BTreePageType::LeafTable {
            return Err(SqliteError::DecodeRecord);
        }
        let mut cells = page.cells;
        let mut tables: Vec<SchemaTable> = Vec::new();
        let ghost mut done: int = 0;
        let ghost mut rows: Seq<SchemaEntry> = Seq::empty();
        assert(entries_view(tables@) =~= Seq::<SchemaEntry>::empty());
        while cells.len() > 0
            invariant
                model.header.page_type == BTreePageType::LeafTable,
                model == page@,
                0 <= done <= model.cells.len(),
                cells_view(cells@) == model.cells.subrange(done, model.cells.len() as int),
                spec_entries(model.cells, done) == Ok::<Seq<SchemaEntry>, SqliteError>(rows),
                entries_view(tables@) == catalog_of(rows),
                spec_schema(model) == spec_entries(model.cells, model.cells.len() as int),
            decreases cells@.len(),
        {
            let ghost before = cells@;
            let c = cells.remove(0);
            proof {
                assert(cells_view(before) =~= seq![c@] + cells_view(cells@));
                assert(cells_view(before).len() == model.cells.len() - done);
                assert(cells_view(before)[0] == c@);
                assert(cells_view(before)[0] == model.cells.subrange(
                    done,
                    model.cells.len() as int,
                )[0]);
                assert(cells_view(cells@) =~= cells_view(before).subrange(
                    1,
                    cells_view(before).len() as int,
                ));
                assert(cells_view(cells@) =~= model.cells.subrange(
                    done + 1,
                    model.cells.len() as int,
                ));
            }
            let t = match SchemaTable::new(c) {
                Ok(t) => t,
                Err(e) => {
                    proof {
                        assert(model.cells[done] == c@);
                        assert(spec_entries(model.cells, done + 1) == Err::<
                            Seq<SchemaEntry>,
                            SqliteError,
                        >(e));
                        lemma_entries_err(model.cells, done + 1, model.cells.len() as int);
                        assert(spec_schema(model) == Err::<Seq<SchemaEntry>, SqliteError>(e));
                    }
                    return Err(e);
                },
            };
            proof {
                assert(model.cells[done] == c@);
                assert(rows.push(t@).drop_last() =~= rows);
            }
            insert_entry(&mut tables, t);
            proof {
                done = done + 1;
                rows = rows.push(t@);
            }
        }
        proof {
            lemma_catalog_sorted(rows);
        }
        Ok(SqliteSchema { tables })
    }

    /// The names of the tables, less those whose name starts with `sqlite_`,
    /// in name order.
    pub fn tables(&self) -> (r: Vec<String>)
        ensures
            r@.map_values(|s: String| s@) == user_tables(self@),
            self.wf() ==> names_sorted(r@.map_values(|s: String| s@)),
    {
        proof {
            if self.wf() {
                lemma_names_where_sorted(self@, |e: SchemaEntry| is_table(e) && !is_internal(e));
            }
        }
        let mut out: Vec<String> = Vec::new();
        let mut i: usize = 0;
        while i < self.tables.len()
            invariant
                i <= self.tables@.len(),
                out@.map_values(|s: String| s@) == user_tables(self@.subrange(0, i as int)),
            decreases self.tables@.len() - i,
        {
            let t = &self.tables[i];
            proof {
                assert(self@.subrange(0, i + 1).drop_last() =~= self@.subrange(0, i as int));
                assert(self@[i as int] == t@);
                encode_utf8_decode_utf8(t.sqlite_type@);
            }
            if text_is(&t.sqlite_type, "table") && !has_prefix(
                t.name.as_str().as_bytes(),
                "sqlite_".as_bytes(),
            ) {
                let n = t.name.clone();
                proof {
                    assert(out@.push(n).map_values(|s: String| s@) =~= out@.map_values(
                        |s: String| s@,
                    ).push(n@));
                }
                out.push(n);
            }
            i = i + 1;
        }
        assert(self@.subrange(0, i as int) =~= self@);
        out
    }

    /// The first table named `table`.
    pub fn fetch_table(&self, table: &str) -> (r: Option<&SchemaTable>)
        ensures
            match first_where(self@, |e: SchemaEntry| is_table(e) && e.name == table@) {
                Some(i) => r is Some && r->Some_0@ == self@[i],
                None => r is None,
            },
    {
        let ghost f = |e: SchemaEntry| is_table(e) && e.name == table@;
        let mut i: usize = 0;
        while i < self.tables.len()
            invariant
                i <= self.tables@.len(),
                f == (|e: SchemaEntry| is_table(e) && e.name == table@),
                forall|j: int| 0 <= j < i ==> !f(#[trigger] self@[j]),
            decreases self.tables@.len() - i,
        {
            let t = &self.tables[i];
            assert(self@[i as int] == t@);
            if text_is(&t.sqlite_type, "table") && text_is(&t.name, table) {
                proof {
                    lemma_first_where(self@, f, i as int);
                }
                return Some(t);
            }
            i = i + 1;
        }
        proof {
            lemma_first_where_none(self@, f);
        }
        None
    }

    /// The first index that belongs to the table `table`.
    pub fn fetch_index(&self, table: &str) -> (r: Option<&SchemaTable>)
        ensures
            match first_where(self@, |e: SchemaEntry| is_index(e) && e.table_name == table@) {
                Some(i) => r is Some && r->Some_0@ == self@[i],
                None => r is None,
            },
    {
        let ghost f = |e: SchemaEntry| is_index(e) && e.table_name == table@;
        let mut i: usize = 0;
        while i < self.tables.len()
            invariant
                i <= self.tables@.len(),
                f == (|e: SchemaEntry| is_index(e) && e.table_name == table@),
                forall|j: int| 0 <= j < i ==> !f(#[trigger] self@[j]),
            decreases self.tables@.len() - i,
        {
            let t = &self.tables[i];
            assert(self@[i as int] == t@);
            if text_is(&t.sqlite_type, "index") && text_is(&t.table_name, table) {
                proof {
                    lemma_first_where(self@, f, i as int);
                }
                return Some(t);
            }
            i = i + 1;
        }
        proof {
            lemma_first_where_none(self@, f);
        }
        None
    }
}

pub proof fn lemma_first_where(es: Seq<SchemaEntry>, f: spec_fn(SchemaEntry) -> bool, i: int)
    requires
        0 <= i < es.len(),
        f(es[i]),
        forall|j: int| 0 <= j < i ==> !f(#[trigger] es[j]),
    ensures
        first_where(es, f) == Some(i),
{
    reveal(first_where);
    let k = choose|k: int| 0 <= k < es.len() && f(es[k]) && forall|j: int| 0 <= j < k ==> !f(es[j]);
    assert(0 <= k < es.len() && f(es[k]) && forall|j: int| 0 <= j < k ==> !f(es[j]));
    if k < i {
        assert(!f(es[k]));
    }
    if k > i {
        assert(!f(es[i]));
    }
}

pub proof fn lemma_first_where_none(es: Seq<SchemaEntry>, f: spec_fn(SchemaEntry) -> bool)
    requires
        forall|j: int| 0 <= j < es.len() ==> !f(#[trigger] es[j]),
    ensures
        first_where(es, f) is None,
{
    reveal(first_where);
}

proof fn lemma_entries_err(cells: Seq<CellModel>, k: int, n: int)
    requires
        1 <= k <= n <= cells.len(),
        spec_entries(cells, k) is Err,
    ensures
        spec_entries(cells, n) == spec_entries(cells, k),
    decreases n - k,
{
    if n > k {
        lemma_entries_err(cells, k, n - 1);
    }
}

proof fn lemma_entries_len(cells: Seq<CellModel>, n: int)
    requires
        0 <= n <= cells.len(),
        spec_entries(cells, n) is Ok,
    ensures
        spec_entries(cells, n)->Ok_0.len() == n,
    decreases n,
{
    if n > 0 {
        lemma_entries_len(cells, n - 1);
    }
}

proof fn lemma_split_count(es: Seq<SchemaEntry>)
    requires
        forall|i: int| 0 <= i < es.len() ==> is_table(#[trigger] es[i]) || is_internal(es[i]),
    ensures
        user_tables(es).len() + internal_count(es) == es.len(),
    decreases es.len(),
{
    if es.len() > 0 {
        let d = es.drop_last();
        assert forall|i: int| 0 <= i < d.len() implies is_table(#[trigger] d[i]) || is_internal(
            d[i],
        ) by {
            assert(d[i] == es[i]);
        }
        lemma_split_count(d);
        assert(is_table(es[es.len() - 1]) || is_internal(es[es.len() - 1]));
    }
}

proof fn lemma_insert_shape(es: Seq<SchemaEntry>, x: SchemaEntry, i: int)
    requires
        0 <= i <= es.len(),
        forall|j: int| 0 <= j < es.len() ==> name_key(#[trigger] es[j]) != name_key(x),
    ensures
        exists|k: int| i <= k <= es.len() && insert_by_name(es, x, i) == es.insert(k, x),
    decreases es.len() - i,
{
    if i == es.len() {
        assert(es.push(x) =~= es.insert(i, x));
        assert(insert_by_name(es, x, i) == es.insert(i, x));
    } else {
        lemma_lex_cmp_eq(name_key(x), name_key(es[i]));
        if lex_cmp(name_key(x), name_key(es[i])) > 0 {
            lemma_insert_shape(es, x, i + 1);
        } else {
            assert(insert_by_name(es, x, i) == es.insert(i, x));
        }
    }
}

proof fn lemma_count_insert(es: Seq<SchemaEntry>, k: int, x: SchemaEntry)
    requires
        0 <= k <= es.len(),
    ensures
        internal_count(es.insert(k, x)) == internal_count(es) + if is_internal(x) {
            1nat
        } else {
            0nat
        },
    decreases es.len(),
{
    if k == es.len() {
        assert(es.insert(k, x).drop_last() =~= es);
    } else {
        let d = es.drop_last();
        lemma_count_insert(d, k, x);
        assert(es.insert(k, x).drop_last() =~= d.insert(k, x));
        assert(es.insert(k, x).last() == es.last());
    }
}

/// With distinct names, the catalog keeps every row: as many entries, as many
/// internal ones, each entry one of the rows.
proof fn lemma_catalog_keeps_rows(rows: Seq<SchemaEntry>)
    requires
        forall|a: int, b: int| 0 <= a < b < rows.len() ==> name_key(#[trigger] rows[a]) != name_key(
            #[trigger] rows[b],
        ),
    ensures
        catalog_of(rows).len() == rows.len(),
        internal_count(catalog_of(rows)) == internal_count(rows),
        forall|k: int|
            0 <= k < catalog_of(rows).len() ==> exists|j: int|
                0 <= j < rows.len() && #[trigger] catalog_of(rows)[k] == rows[j],
    decreases rows.len(),
{
    if rows.len() > 0 {
        let d = rows.drop_last();
        let x = rows.last();
        let c = catalog_of(d);
        assert forall|a: int, b: int| 0 <= a < b < d.len() implies name_key(#[trigger] d[a])
            != name_key(#[trigger] d[b]) by {
            assert(d[a] == rows[a] && d[b] == rows[b]);
        }
        lemma_catalog_keeps_rows(d);
        assert forall|j: int| 0 <= j < c.len() implies name_key(#[trigger] c[j]) != name_key(x) by {
            let m = choose|m: int| 0 <= m < d.len() && c[j] == d[m];
            assert(c[j] == rows[m]);
            assert(x == rows[rows.len() - 1]);
        }
        lemma_insert_shape(c, x, 0);
        let k = choose|k: int| 0 <= k <= c.len() && insert_by_name(c, x, 0) == c.insert(k, x);
        lemma_count_insert(c, k, x);
        assert(internal_count(rows) == internal_count(d) + if is_internal(x) {
            1nat
        } else {
            0nat
        });
        let r = c.insert(k, x);
        assert forall|q: int| 0 <= q < r.len() implies exists|j: int|
            0 <= j < rows.len() && #[trigger] r[q] == rows[j] by {
            if q == k {
                assert(r[q] == rows[rows.len() - 1]);
            } else {
                let q2 = if q < k {
                    q
                } else {
                    q - 1
                };
                assert(r[q] == c[q2]);
                let m = choose|m: int| 0 <= m < d.len() && c[q2] == d[m];
                assert(r[q] == rows[m]);
            }
        }
    }
}

/// Where the schema rows have distinct names and each is a table or has a
/// name that starts with `sqlite_`, the tables that `tables()` lists and the
/// rows whose name starts with `sqlite_` together make up all the cells of
/// page 1.
pub proof fn law_schema_complete(p: PageModel)
    requires
        spec_schema(p) is Ok,
        forall|i: int|
            0 <= i < spec_schema(p)->Ok_0.len() ==> is_table(#[trigger] spec_schema(p)->Ok_0[i])
                || is_internal(spec_schema(p)->Ok_0[i]),
        forall|a: int, b: int|
            0 <= a < b < spec_schema(p)->Ok_0.len() ==> (#[trigger] spec_schema(p)->Ok_0[a]).name
                != (#[trigger] spec_schema(p)->Ok_0[b]).name,
    ensures
        user_tables(catalog_of(spec_schema(p)->Ok_0)).len() + internal_count(spec_schema(p)->Ok_0)
            == p.cells.len(),
{
    reveal(spec_schema);
    let rows = spec_schema(p)->Ok_0;
    lemma_entries_len(p.cells, p.cells.len() as int);
    assert forall|a: int, b: int| 0 <= a < b < rows.len() implies name_key(#[trigger] rows[a])
        != name_key(#[trigger] rows[b]) by {
        encode_utf8_decode_utf8(rows[a].name);
        encode_utf8_decode_utf8(rows[b].name);
    }
    lemma_catalog_keeps_rows(rows);
    let c = catalog_of(rows);
    assert forall|i: int| 0 <= i < c.len() implies is_table(#[trigger] c[i]) || is_internal(c[i]) by {
        let j = choose|j: int| 0 <= j < rows.len() && c[i] == rows[j];
    }
    lemma_split_count(c);
}

impl<'a> SqliteReader<'a> {
    /// The schema that page 1 holds.
    pub open spec fn spec_catalog(&self) -> Result<Seq<SchemaEntry>, SqliteError> {
        match self.spec_page_at(1) {
            Err(e) => Err(e),
            Ok(p) => match spec_schema(p) {
                Ok(rows) => Ok(catalog_of(rows)),
                Err(e) => Err(e),
            },
        }
    }

    /// Reads the schema catalog from page 1.
    pub fn schema(&self) -> (r: Result<SqliteSchema, SqliteError>)
        requires
            self.wf(),
        ensures
            match r {
                Ok(s) => self.spec_catalog() == Ok::<Seq<SchemaEntry>, SqliteError>(s@) && s.wf(),
                Err(e) => self.spec_catalog() == Err::<Seq<SchemaEntry>, SqliteError>(e),
            },
    {
        match self.page(1) {
            Ok(p) => SqliteSchema::new(p),
            Err(e) => Err(e),
        }
    }
}

} // verus!
