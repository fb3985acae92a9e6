//! Running a `SELECT`: choosing between a count, an index lookup and a full
//! scan, then filtering and projecting the rows.
use crate::cell::{copy_bytes, values_view, CellModel, LeafCell, RecordValue, Value};
use crate::error::{SqliteError, UnsupportedFeature};
use crate::reader::{leaves_view, SqliteReader};
use crate::schema::{
    first_where, is_index, is_table, names_sorted, names_where, SchemaEntry, SchemaTable,
    SqliteSchema,
};
use crate::sql::{
    columns_view, create_statement, lower, select_statement, spec_create, spec_select,
    ColumnDefinition, ColumnModel, Constraint, CreateModel, CreateStatement, CreateTable,
};
use crate::text::{
    bytes_equal, contains, contains_bytes, join_fields, joined, text_of, value_text,
};
use vstd::prelude::*;
use vstd::utf8::encode_utf8;

verus! {

/// `a` is `kw` (given in lower case) in any case.
pub open spec fn eq_lower(a: Seq<u8>, kw: Seq<u8>) -> bool {
    a.len() == kw.len() && forall|j: int| 0 <= j < kw.len() ==> lower(#[trigger] a[j]) == kw[j]
}

/// A column declared `INTEGER PRIMARY KEY`, whose value the row id holds.
pub open spec fn is_ipk(c: ColumnModel) -> bool {
    eq_lower(c.datatype, encode_utf8("integer"@)) && c.constraints.contains(Constraint::PrimaryKey)
}

/// The `i`-th value of a record; a record shorter than its table leaves the
/// missing values NULL.
pub open spec fn cell_value(vals: Seq<Value>, i: int) -> Value {
    if 0 <= i < vals.len() {
        vals[i]
    } else {
        Value::Null
    }
}

/// The value of column `i` in `row`, with the row id in place of a NULL in an
/// `INTEGER PRIMARY KEY` column.
pub open spec fn column_value(row: CellModel, cols: Seq<ColumnModel>, i: int) -> Value {
    match row {
        CellModel::TableLeaf { row_id, values } => if 0 <= i < cols.len() && is_ipk(cols[i])
            && cell_value(values, i) is Null {
            Value::Int(row_id as int)
        } else {
            cell_value(values, i)
        },
        _ => Value::Null,
    }
}

/// The first column of `cols[i..]` named `name`.
pub open spec fn col_pos_from(cols: Seq<ColumnModel>, name: Seq<u8>, i: int) -> Option<int>
    decreases cols.len() - i,
{
    if i < 0 || i >= cols.len() {
        None
    } else if cols[i].name == name {
        Some(i)
    } else {
        col_pos_from(cols, name, i + 1)
    }
}

pub open spec fn col_pos(cols: Seq<ColumnModel>, name: Seq<u8>) -> Option<int> {
    col_pos_from(cols, name, 0)
}

/// The positions of the columns `names`, or `None` where one is not declared.
pub open spec fn positions(cols: Seq<ColumnModel>, names: Seq<Seq<u8>>) -> Option<Seq<int>>
    decreases names.len(),
{
    if names.len() == 0 {
        Some(Seq::empty())
    } else {
        match positions(cols, names.drop_last()) {
            None => None,
            Some(ps) => match col_pos(cols, names.last()) {
                None => None,
                Some(p) => Some(ps.push(p)),
            },
        }
    }
}

/// The values of the columns at `pos` in `row`.
pub open spec fn project(row: CellModel, cols: Seq<ColumnModel>, pos: Seq<int>) -> Seq<Value> {
    Seq::new(pos.len(), |k: int| column_value(row, cols, pos[k]))
}

/// Whether the text of column `f` of `row` is `v`.
pub open spec fn row_matches(row: CellModel, cols: Seq<ColumnModel>, f: int, v: Seq<u8>) -> bool {
    value_text(column_value(row, cols, f)) == Some(v)
}

/// Some row of `rows` holds a double in column `f`.
pub open spec fn any_real(rows: Seq<CellModel>, cols: Seq<ColumnModel>, f: int) -> bool {
    exists|i: int| 0 <= i < rows.len() && (#[trigger] column_value(rows[i], cols, f)) is Real
}

/// The rows of `rows` whose column `f` reads `v`; an error where a row holds a
/// double there, whose text this library does not write.
pub open spec fn filtered(rows: Seq<CellModel>, cols: Seq<ColumnModel>, f: int, v: Seq<u8>) -> Result<
    Seq<CellModel>,
    SqliteError,
> {
    if any_real(rows, cols, f) {
        Err(SqliteError::Unsupported(UnsupportedFeature::RealComparison))
    } else {
        Ok(keep(rows, cols, f, v))
    }
}

/// The rows of `rows` whose column `f` reads `v`.
pub open spec fn keep(rows: Seq<CellModel>, cols: Seq<ColumnModel>, f: int, v: Seq<u8>) -> Seq<
    CellModel,
>
    decreases rows.len(),
{
    if rows.len() == 0 {
        Seq::empty()
    } else if row_matches(rows.last(), cols, f, v) {
        keep(rows.drop_last(), cols, f, v).push(rows.last())
    } else {
        keep(rows.drop_last(), cols, f, v)
    }
}

/// Whether `a` is `kw` in any case.
fn bytes_eq_lower(a: &[u8], kw: &str) -> (r: bool)
    ensures
        r == eq_lower(a@, encode_utf8(kw@)),
{
    let k = kw.as_bytes();
    if a.len() != k.len() {
        return false;
    }
    let mut j: usize = 0;
    while j < k.len()
        invariant
            a@.len() == k@.len(),
            k@ == encode_utf8(kw@),
            j <= k@.len(),
            forall|m: int| 0 <= m < j ==> lower(#[trigger] a@[m]) == k@[m],
        decreases k@.len() - j,
    {
        let b = a[j];
        let l = if 65 <= b && b <= 90 {
            b + 32
        } else {
            b
        };
        if l != k[j] {
            return false;
        }
        j = j + 1;
    }
    true
}

/// Whether the column is declared `INTEGER PRIMARY KEY`.
pub fn is_integer_primary_key(c: &ColumnDefinition) -> (r: bool)
    ensures
        r == is_ipk(c@),
{
    if !bytes_eq_lower(c.datatype.as_slice(), "integer") {
        return false;
    }
    let mut i: usize = 0;
    while i < c.constraints.len()
        invariant
            eq_lower(c.datatype@, encode_utf8("integer"@)),
            i <= c.constraints@.len(),
            forall|k: int| 0 <= k < i ==> c.constraints@[k] != Constraint::PrimaryKey,
        decreases c.constraints@.len() - i,
    {
        if c.constraints[i] == Constraint::PrimaryKey {
            assert(c.constraints@[i as int] == Constraint::PrimaryKey);
            assert(c.constraints@.contains(Constraint::PrimaryKey));
            return true;
        }
        i = i + 1;
    }
    false
}

/// The position of the first column named `name`.
pub fn column_position(cols: &Vec<ColumnDefinition>, name: &[u8]) -> (r: Option<usize>)
    ensures
        match r {
            Some(p) => col_pos(columns_view(cols@), name@) == Some(p as int),
            None => col_pos(columns_view(cols@), name@) is None,
        },
{
    let ghost cm = columns_view(cols@);
    let mut i: usize = 0;
    while i < cols.len()
        invariant
            cm == columns_view(cols@),
            i <= cols@.len(),
            col_pos(cm, name@) == col_pos_from(cm, name@, i as int),
        decreases cols@.len() - i,
    {
        assert(cm[i as int] == cols@[i as int]@);
        if bytes_equal(cols[i].name.as_slice(), name) {
            return Some(i);
        }
        i = i + 1;
    }
    None
}

/// A copy of `v`.
pub fn copy_value(v: &RecordValue) -> (r: RecordValue)
    ensures
        r@ == v@,
{
    match v {
        RecordValue::Null => RecordValue::Null,
        RecordValue::I8(x) => RecordValue::I8(*x),
        RecordValue::I16(x) => RecordValue::I16(*x),
        RecordValue::I24(x) => RecordValue::I24(*x),
        RecordValue::I32(x) => RecordValue::I32(*x),
        RecordValue::I48(x) => RecordValue::I48(*x),
        RecordValue::I64(x) => RecordValue::I64(*x),
        RecordValue::F64(x) => RecordValue::F64(*x),
        RecordValue::Blob(b) => {
            let c = copy_bytes(b.as_slice(), 0, b.len());
            assert(c@ =~= b@);
            RecordValue::Blob(c)
        },
        RecordValue::String(s) => RecordValue::String(s.clone()),
    }
}

/// The value of column `i` of `row`.
pub fn column_value_of(row: &LeafCell, cols: &Vec<ColumnDefinition>, i: usize) -> (r: RecordValue)
    requires
        i < cols@.len(),
    ensures
        r@ == column_value(row@, columns_view(cols@), i as int),
{
    let ghost vs = crate::cell::values_view(row.payload@);
    let stored = if i < row.payload.len() {
        copy_value(&row.payload[i])
    } else {
        RecordValue::Null
    };
    assert(stored@ == cell_value(vs, i as int));
    assert(columns_view(cols@)[i as int] == cols@[i as int]@);
    let is_null = match stored {
        RecordValue::Null => true,
        _ => false,
    };
    if is_null && is_integer_primary_key(&cols[i]) {
        RecordValue::I64(row.row_id)
    } else {
        stored
    }
}

/// The projection of every row of `rows`.
pub open spec fn project_all(rows: Seq<CellModel>, cols: Seq<ColumnModel>, pos: Seq<int>) -> Seq<
    Seq<Value>,
> {
    rows.map_values(|r: CellModel| project(r, cols, pos))
}

pub open spec fn positions_view(v: Seq<usize>) -> Seq<int> {
    v.map_values(|p: usize| p as int)
}

/// Finds the positions of the columns `names`.
pub fn resolve_columns(cols: &Vec<ColumnDefinition>, names: &Vec<Vec<u8>>) -> (r: Option<Vec<usize>>)
    ensures
        match r {
            Some(ps) => positions(columns_view(cols@), crate::sql::texts_view(names@)) == Some(
                positions_view(ps@),
            ),
            None => positions(columns_view(cols@), crate::sql::texts_view(names@)) is None,
        },
{
    let ghost cm = columns_view(cols@);
    let ghost ns = crate::sql::texts_view(names@);
    let mut out: Vec<usize> = Vec::new();
    let mut i: usize = 0;
    while i < names.len()
        invariant
            cm == columns_view(cols@),
            ns == crate::sql::texts_view(names@),
            i <= names@.len(),
            positions(cm, ns.subrange(0, i as int)) == Some(positions_view(out@)),
        decreases names@.len() - i,
    {
        proof {
            assert(ns.subrange(0, i + 1).drop_last() =~= ns.subrange(0, i as int));
            assert(ns[i as int] == names@[i as int]@);
        }
        match column_position(cols, names[i].as_slice()) {
            Some(p) => {
                proof {
                    assert(positions_view(out@.push(p)) =~= positions_view(out@).push(p as int));
                }
                out.push(p);
            },
            None => {
                proof {
                    lemma_positions_none(cm, ns, i as int + 1);
                    assert(ns.subrange(0, ns.len() as int) =~= ns);
                }
                return None;
            },
        }
        i = i + 1;
    }
    assert(ns.subrange(0, i as int) =~= ns);
    Some(out)
}

proof fn lemma_positions_none(cols: Seq<ColumnModel>, ns: Seq<Seq<u8>>, k: int)
    requires
        1 <= k <= ns.len(),
        positions(cols, ns.subrange(0, k)) is None,
    ensures
        positions(cols, ns.subrange(0, ns.len() as int)) is None,
    decreases ns.len() - k,
{
    if k < ns.len() {
        assert(ns.subrange(0, k + 1).drop_last() =~= ns.subrange(0, k));
        lemma_positions_none(cols, ns, k + 1);
    }
}

/// The values of the columns at `pos` in `row`.
pub fn project_row(row: &LeafCell, cols: &Vec<ColumnDefinition>, pos: &Vec<usize>) -> (r: Vec<
    RecordValue,
>)
    requires
        forall|k: int| 0 <= k < pos@.len() ==> pos@[k] < cols@.len(),
    ensures
        values_view(r@) == project(row@, columns_view(cols@), positions_view(pos@)),
{
    let mut out: Vec<RecordValue> = Vec::new();
    let mut k: usize = 0;
    while k < pos.len()
        invariant
            forall|m: int| 0 <= m < pos@.len() ==> pos@[m] < cols@.len(),
            k <= pos@.len(),
            values_view(out@) == project(row@, columns_view(cols@), positions_view(pos@)).subrange(
                0,
                k as int,
            ),
        decreases pos@.len() - k,
    {
        let v = column_value_of(row, cols, pos[k]);
        proof {
            let pr = project(row@, columns_view(cols@), positions_view(pos@));
            assert(positions_view(pos@)[k as int] == pos@[k as int] as int);
            assert(pr[k as int] == v@);
            assert(values_view(out@.push(v)) =~= values_view(out@).push(v@));
            assert(pr.subrange(0, k + 1) =~= pr.subrange(0, k as int).push(pr[k as int]));
            assert(values_view(out@.push(v)) =~= project(
                row@,
                columns_view(cols@),
                positions_view(pos@),
            ).subrange(0, k + 1));
        }
        out.push(v);
        k = k + 1;
    }
    assert(project(row@, columns_view(cols@), positions_view(pos@)).subrange(0, k as int)
        =~= project(row@, columns_view(cols@), positions_view(pos@)));
    out
}

/// Whether the text of column `f` of `row` is `v`; `None` where that column
/// holds a double.
pub fn row_has(row: &LeafCell, cols: &Vec<ColumnDefinition>, f: usize, v: &[u8]) -> (r: Option<
    bool,
>)
    requires
        f < cols@.len(),
    ensures
        r is None <==> column_value(row@, columns_view(cols@), f as int) is Real,
        r is Some ==> r->Some_0 == row_matches(row@, columns_view(cols@), f as int, v@),
{
    let x = column_value_of(row, cols, f);
    match text_of(&x) {
        Some(t) => Some(bytes_equal(t.as_slice(), v)),
        None => None,
    }
}

/// The rows of `rows` whose column `f` reads `v`, in order; an error where a
/// row holds a double in that column.
pub fn filter_rows(rows: Vec<LeafCell>, cols: &Vec<ColumnDefinition>, f: usize, v: &[u8]) -> (r:
    Result<Vec<LeafCell>, SqliteError>)
    requires
        f < cols@.len(),
    ensures
        match r {
            Ok(kept) => filtered(leaves_view(rows@), columns_view(cols@), f as int, v@) == Ok::<
                Seq<CellModel>,
                SqliteError,
            >(leaves_view(kept@)),
            Err(e) => filtered(leaves_view(rows@), columns_view(cols@), f as int, v@) == Err::<
                Seq<CellModel>,
                SqliteError,
            >(e),
        },
{
    let ghost all = leaves_view(rows@);
    let mut rest = rows;
    let mut out: Vec<LeafCell> = Vec::new();
    let ghost mut done: int = 0;
    while rest.len() > 0
        invariant
            f < cols@.len(),
            all == leaves_view(rows@),
            0 <= done <= all.len(),
            leaves_view(rest@) == all.subrange(done, all.len() as int),
            leaves_view(out@) == keep(all.subrange(0, done), columns_view(cols@), f as int, v@),
            forall|i: int|
                0 <= i < done ==> !((#[trigger] column_value(all[i], columns_view(cols@), f as int)) is Real),
        decreases rest@.len(),
    {
        let ghost before = rest@;
        let row = rest.remove(0);
        proof {
            assert(leaves_view(before) =~= seq![row@] + leaves_view(rest@));
            assert(leaves_view(before).len() == all.len() - done);
            assert(leaves_view(before)[0] == all.subrange(done, all.len() as int)[0]);
            assert(all[done] == row@);
            assert(all.subrange(0, done + 1).drop_last() =~= all.subrange(0, done));
            assert(leaves_view(rest@) =~= leaves_view(before).subrange(
                1,
                leaves_view(before).len() as int,
            ));
            assert(leaves_view(rest@) =~= all.subrange(done + 1, all.len() as int));
        }
        match row_has(&row, cols, f, v) {
            Some(true) => {
                proof {
                    assert(leaves_view(out@.push(row)) =~= leaves_view(out@).push(row@));
                }
                out.push(row);
            },
            Some(false) => {},
            None => {
                proof {
                    assert(column_value(all[done], columns_view(cols@), f as int) is Real);
                    assert(any_real(all, columns_view(cols@), f as int));
                }
                return Err(SqliteError::Unsupported(UnsupportedFeature::RealComparison));
            },
        }
        proof {
            done = done + 1;
        }
    }
    assert(all.subrange(0, done) =~= all);
    Ok(out)
}

/// The columns that a stored `CREATE TABLE` declares.
pub open spec fn spec_table_def(sql: Seq<char>) -> Result<Seq<ColumnModel>, SqliteError> {
    match spec_create(encode_utf8(sql)) {
        Ok(CreateModel::Table { columns, .. }) => Ok(columns),
        Ok(_) => Err(SqliteError::ParseError),
        Err(e) => Err(e),
    }
}

/// The column that a stored `CREATE INDEX` indexes.
pub open spec fn index_column(e: SchemaEntry) -> Option<Seq<u8>> {
    match spec_create(encode_utf8(e.sql)) {
        Ok(CreateModel::Index { column, .. }) => Some(column),
        _ => None,
    }
}

impl SchemaTable {
    /// Parses the `CREATE TABLE` that created this table.
    pub fn columns(&self) -> (r: Result<CreateTable, SqliteError>)
        ensures
            match r {
                Ok(t) => spec_create(encode_utf8(self.sql@)) == Ok::<CreateModel, SqliteError>(
                    CreateModel::Table { name: t.name@, columns: columns_view(t.columns@) },
                ) && spec_table_def(self.sql@) == Ok::<Seq<ColumnModel>, SqliteError>(
                    columns_view(t.columns@),
                ),
                Err(e) => spec_table_def(self.sql@) == Err::<Seq<ColumnModel>, SqliteError>(e),
            },
    {
        match create_statement(self.sql.as_str().as_bytes()) {
            Ok(CreateStatement::Table(t)) => Ok(t),
            Ok(_) => Err(SqliteError::ParseError),
            Err(e) => Err(e),
        }
    }

    /// Parses the `CREATE INDEX` that created this index.
    pub fn indexes(&self) -> (r: Result<crate::sql::CreateIndex, SqliteError>)
        ensures
            match r {
                Ok(i) => spec_create(encode_utf8(self.sql@)) == Ok::<CreateModel, SqliteError>(
                    CreateModel::Index { name: i.name@, table: i.table@, column: i.table_column@ },
                ) && index_column(self@) == Some(i.table_column@),
                Err(e) => e == SqliteError::ParseError && index_column(self@) is None,
            },
    {
        match create_statement(self.sql.as_str().as_bytes()) {
            Ok(CreateStatement::Index(i)) => Ok(i),
            _ => Err(SqliteError::ParseError),
        }
    }
}

/// The table whose name has the UTF-8 bytes `name`.
pub open spec fn table_named(name: Seq<u8>) -> spec_fn(SchemaEntry) -> bool {
    |e: SchemaEntry| is_table(e) && encode_utf8(e.name) == name
}

/// An index of table `table` on the column `column`.
pub open spec fn index_on(table: Seq<char>, column: Seq<u8>) -> spec_fn(SchemaEntry) -> bool {
    |e: SchemaEntry| is_index(e) && e.table_name == table && index_column(e) == Some(column)
}

impl SqliteSchema {
    /// The position of the first table whose name has the bytes `name`.
    pub fn find_table(&self, name: &[u8]) -> (r: Option<usize>)
        ensures
            match r {
                Some(i) => first_where(self@, table_named(name@)) == Some(i as int) && i
                    < self@.len(),
                None => first_where(self@, table_named(name@)) is None,
            },
    {
        let ghost f = table_named(name@);
        let mut i: usize = 0;
        while i < self.tables.len()
            invariant
                i <= self.tables@.len(),
                f == table_named(name@),
                forall|j: int| 0 <= j < i ==> !f(#[trigger] self@[j]),
            decreases self.tables@.len() - i,
        {
            let t = &self.tables[i];
            assert(self@[i as int] == t@);
            if crate::text::bytes_equal(t.sqlite_type.as_str().as_bytes(), "table".as_bytes())
                && bytes_equal(t.name.as_str().as_bytes(), name) {
                proof {
                    vstd::utf8::encode_utf8_decode_utf8(t.sqlite_type@);
                    vstd::utf8::encode_utf8_decode_utf8("table"@);
                    crate::schema::lemma_first_where(self@, f, i as int);
                }
                return Some(i);
            }
            proof {
                if is_table(t@) {
                    assert(encode_utf8(t.sqlite_type@) == encode_utf8("table"@));
                }
            }
            i = i + 1;
        }
        proof {
            crate::schema::lemma_first_where_none(self@, f);
        }
        None
    }

    /// The position of the first index of the table named `table` on the
    /// column `column`.
    pub fn find_index_on(&self, table: &str, column: &[u8]) -> (r: Option<usize>)
        ensures
            match r {
                Some(i) => first_where(self@, index_on(table@, column@)) == Some(i as int) && i
                    < self@.len(),
                None => first_where(self@, index_on(table@, column@)) is None,
            },
    {
        let ghost f = index_on(table@, column@);
        let mut i: usize = 0;
        while i < self.tables.len()
            invariant
                i <= self.tables@.len(),
                f == index_on(table@, column@),
                forall|j: int| 0 <= j < i ==> !f(#[trigger] self@[j]),
            decreases self.tables@.len() - i,
        {
            let t = &self.tables[i];
            assert(self@[i as int] == t@);
            let hit = if crate::schema::text_is(&t.sqlite_type, "index") && crate::schema::text_is(
                &t.table_name,
                table,
            ) {
                match t.indexes() {
                    Ok(ix) => bytes_equal(ix.table_column.as_slice(), column),
                    Err(_) => false,
                }
            } else {
                false
            };
            if hit {
                proof {
                    crate::schema::lemma_first_where(self@, f, i as int);
                }
                return Some(i);
            }
            i = i + 1;
        }
        proof {
            crate::schema::lemma_first_where_none(self@, f);
        }
        None
    }
}

/// What a query returns, as plain values.
pub enum OutputModel {
    Count(u64),
    Rows(Seq<Seq<Value>>),
}

/// What a query returns: a row count, or the projected rows.
#[derive(Debug)]
pub enum QueryOutput {
    Count(u64),
    Rows(Vec<Vec<RecordValue>>),
}

pub open spec fn rows_view(v: Seq<Vec<RecordValue>>) -> Seq<Seq<Value>> {
    v.map_values(|r: Vec<RecordValue>| values_view(r@))
}

impl View for QueryOutput {
    type V = OutputModel;

    open spec fn view(&self) -> OutputModel {
        match self {
            QueryOutput::Count(n) => OutputModel::Count(*n),
            QueryOutput::Rows(r) => OutputModel::Rows(rows_view(r@)),
        }
    }
}

/// Projects every row of `rows`.
fn project_rows(rows: &Vec<LeafCell>, cols: &Vec<ColumnDefinition>, pos: &Vec<usize>) -> (r: Vec<
    Vec<RecordValue>,
>)
    requires
        forall|k: int| 0 <= k < pos@.len() ==> pos@[k] < cols@.len(),
    ensures
        rows_view(r@) == project_all(
            leaves_view(rows@),
            columns_view(cols@),
            positions_view(pos@),
        ),
{
    let ghost want = project_all(leaves_view(rows@), columns_view(cols@), positions_view(pos@));
    let mut out: Vec<Vec<RecordValue>> = Vec::new();
    let mut i: usize = 0;
    while i < rows.len()
        invariant
            forall|k: int| 0 <= k < pos@.len() ==> pos@[k] < cols@.len(),
            want == project_all(leaves_view(rows@), columns_view(cols@), positions_view(pos@)),
            i <= rows@.len(),
            rows_view(out@) == want.subrange(0, i as int),
        decreases rows@.len() - i,
    {
        let p = project_row(&rows[i], cols, pos);
        proof {
            assert(leaves_view(rows@)[i as int] == rows@[i as int]@);
            assert(rows_view(out@.push(p)) =~= rows_view(out@).push(values_view(p@)));
            assert(want.subrange(0, i + 1) =~= want.subrange(0, i as int).push(want[i as int]));
        }
        out.push(p);
        i = i + 1;
    }
    assert(want.subrange(0, i as int) =~= want);
    out
}

impl<'a> SqliteReader<'a> {
    /// The rows that a query on the table `te` with columns `cols` reads:
    /// through the index of `es` on the filter column where there is one,
    /// else by a full scan and the filter.
    pub open spec fn spec_select_rows(
        &self,
        es: Seq<SchemaEntry>,
        te: SchemaEntry,
        cols: Seq<ColumnModel>,
        filter: Option<(Seq<u8>, Seq<u8>)>,
    ) -> Result<Seq<CellModel>, SqliteError> {
        match filter {
            None => self.spec_rows(te.root_page, self.depth_budget()),
            Some((c, v)) => match col_pos(cols, c) {
                None => Err(SqliteError::UnknownColumn),
                Some(f) => match first_where(es, index_on(te.name, c)) {
                    Some(ii) => if es[ii].root_page > usize::MAX {
                        Err(SqliteError::IoOutOfRange)
                    } else {
                        match self.spec_search(es[ii].root_page, v, self.depth_budget()) {
                            Err(e) => Err(e),
                            Ok(ids) => self.spec_lookups(te.root_page, ids, 0),
                        }
                    },
                    None => match self.spec_rows(te.root_page, self.depth_budget()) {
                        Err(e) => Err(e),
                        Ok(rows) => filtered(rows, cols, f, v),
                    },
                },
            },
        }
    }

    /// What the query whose text is `q` returns.
    pub open spec fn spec_query(&self, q: Seq<u8>) -> Result<OutputModel, SqliteError> {
        match spec_select(q) {
            Err(e) => Err(e),
            Ok(st) => match self.spec_catalog() {
                Err(e) => Err(e),
                Ok(es) => match first_where(es, table_named(st.table)) {
                    None => Err(SqliteError::UnknownTable),
                    Some(ti) => if es[ti].root_page > usize::MAX {
                        Err(SqliteError::IoOutOfRange)
                    } else if st.count {
                        match self.spec_count(es[ti].root_page, self.depth_budget()) {
                            Err(e) => Err(e),
                            Ok(n) => Ok(OutputModel::Count(n)),
                        }
                    } else {
                        match spec_table_def(es[ti].sql) {
                            Err(e) => Err(e),
                            Ok(cols) => match positions(cols, st.columns) {
                                None => Err(SqliteError::UnknownColumn),
                                Some(pos) => match self.spec_select_rows(
                                    es,
                                    es[ti],
                                    cols,
                                    st.filter,
                                ) {
                                    Err(e) => Err(e),
                                    Ok(rows) => Ok(OutputModel::Rows(project_all(rows, cols, pos))),
                                },
                            },
                        }
                    },
                },
            },
        }
    }

    fn select_rows(
        &self,
        schema: &SqliteSchema,
        ti: usize,
        cols: &Vec<ColumnDefinition>,
        filter: &Option<crate::sql::Condition>,
    ) -> (r: Result<Vec<LeafCell>, SqliteError>)
        requires
            self.wf(),
            ti < schema@.len(),
            schema@[ti as int].root_page <= usize::MAX,
        ensures
            match r {
                Ok(rows) => self.spec_select_rows(
                    schema@,
                    schema@[ti as int],
                    columns_view(cols@),
                    match filter {
                        Some(c) => Some((c.column@, c.value@)),
                        None => None,
                    },
                ) == Ok::<Seq<CellModel>, SqliteError>(leaves_view(rows@)),
                Err(e) => self.spec_select_rows(
                    schema@,
                    schema@[ti as int],
                    columns_view(cols@),
                    match filter {
                        Some(c) => Some((c.column@, c.value@)),
                        None => None,
                    },
                ) == Err::<Seq<CellModel>, SqliteError>(e),
            },
    {
        let t = &schema.tables[ti];
        assert(schema@[ti as int] == t@);
        let root = t.root_page as usize;
        match filter {
            None => self.traverse_rows(root),
            Some(cond) => {
                let f = match column_position(cols, cond.column.as_slice()) {
                    Some(f) => f,
                    None => {
                        return Err(SqliteError::UnknownColumn);
                    },
                };
                proof {
                    crate::query::lemma_col_pos_bound(columns_view(cols@), cond.column@, 0);
                }
                match schema.find_index_on(t.name.as_str(), cond.column.as_slice()) {
                    Some(ii) => {
                        let ix = &schema.tables[ii];
                        assert(schema@[ii as int] == ix@);
                        if ix.root_page > usize::MAX as u64 {
                            return Err(SqliteError::IoOutOfRange);
                        }
                        let ids = match self.search_index(
                            ix.root_page as usize,
                            cond.value.as_slice(),
                        ) {
                            Ok(ids) => ids,
                            Err(e) => {
                                return Err(e);
                            },
                        };
                        self.traverse_indexed_rows(root, &ids)
                    },
                    None => {
                        let rows = match self.traverse_rows(root) {
                            Ok(rows) => rows,
                            Err(e) => {
                                return Err(e);
                            },
                        };
                        filter_rows(rows, cols, f, cond.value.as_slice())
                    },
                }
            },
        }
    }

    /// Runs a `SELECT`: `COUNT(*)` counts the table's rows; a filter on a
    /// column with an index goes through the index; anything else scans the
    /// table, applies the filter, and projects the named columns.
    pub fn query(&self, q: &str) -> (r: Result<QueryOutput, SqliteError>)
        requires
            self.wf(),
        ensures
            match r {
                Ok(out) => self.spec_query(encode_utf8(q@)) == Ok::<OutputModel, SqliteError>(out@),
                Err(e) => self.spec_query(encode_utf8(q@)) == Err::<OutputModel, SqliteError>(e),
            },
    {
        let st = match select_statement(q.as_bytes()) {
            Ok(st) => st,
            Err(e) => {
                return Err(e);
            },
        };
        let schema = match self.schema() {
            Ok(s) => s,
            Err(e) => {
                return Err(e);
            },
        };
        let ti = match schema.find_table(st.table.as_slice()) {
            Some(i) => i,
            None => {
                return Err(SqliteError::UnknownTable);
            },
        };
        let t = &schema.tables[ti];
        assert(schema@[ti as int] == t@);
        if t.root_page > usize::MAX as u64 {
            return Err(SqliteError::IoOutOfRange);
        }
        let root = t.root_page as usize;
        if st.operation.is_some() {
            return match self.count_rows(root) {
                Ok(n) => Ok(QueryOutput::Count(n)),
                Err(e) => Err(e),
            };
        }
        let def = match t.columns() {
            Ok(d) => d,
            Err(e) => {
                return Err(e);
            },
        };
        let pos = match resolve_columns(&def.columns, &st.columns) {
            Some(p) => p,
            None => {
                return Err(SqliteError::UnknownColumn);
            },
        };
        proof {
            lemma_positions_bound(columns_view(def.columns@), crate::sql::texts_view(st.columns@));
            assert forall|k: int| 0 <= k < pos@.len() implies pos@[k] < def.columns@.len() by {
                assert(positions_view(pos@)[k] == pos@[k] as int);
            }
        }
        let rows = match self.select_rows(&schema, ti, &def.columns, &st.where_clause) {
            Ok(rows) => rows,
            Err(e) => {
                return Err(e);
            },
        };
        Ok(QueryOutput::Rows(project_rows(&rows, &def.columns, &pos)))
    }
}

pub proof fn lemma_col_pos_bound(cols: Seq<ColumnModel>, name: Seq<u8>, i: int)
    requires
        0 <= i,
    ensures
        col_pos_from(cols, name, i) is Some ==> i <= col_pos_from(cols, name, i)->Some_0 < cols.len(),
    decreases cols.len() - i,
{
    if i < cols.len() && cols[i].name != name {
        lemma_col_pos_bound(cols, name, i + 1);
    }
}

proof fn lemma_positions_bound(cols: Seq<ColumnModel>, names: Seq<Seq<u8>>)
    requires
        positions(cols, names) is Some,
    ensures
        forall|k: int|
            0 <= k < positions(cols, names)->Some_0.len() ==> 0 <= #[trigger] positions(
                cols,
                names,
            )->Some_0[k] < cols.len(),
        positions(cols, names)->Some_0.len() == names.len(),
    decreases names.len(),
{
    if names.len() > 0 {
        lemma_positions_bound(cols, names.drop_last());
        lemma_col_pos_bound(cols, names.last(), 0);
    }
}

/// The names of the user tables that `.tables` lists: entries of type
/// `table` whose name does not contain `sqlite`, in catalog order.
pub open spec fn listed_tables(es: Seq<SchemaEntry>) -> Seq<Seq<char>> {
    names_where(
        es,
        |e: SchemaEntry| is_table(e) && !contains_bytes(encode_utf8(e.name), encode_utf8("sqlite"@)),
    )
}

impl<'a> SqliteReader<'a> {
    /// The page size, and the number of rows of the schema table: the cell
    /// count of page 1, which counts indexes and views as well as tables.
    pub fn dbinfo(&self) -> (r: Result<(u32, usize), SqliteError>)
        requires
            self.wf(),
        ensures
            match r {
                Ok((ps, n)) => ps == self.database_header.page_size && self.spec_page_at(1) is Ok
                    && n == self.spec_page_at(1)->Ok_0.cells.len(),
                Err(e) => self.spec_page_at(1) == Err::<crate::page::PageModel, SqliteError>(e),
            },
    {
        match self.page(1) {
            Ok(p) => Ok((self.database_header.page_size, p.count())),
            Err(e) => Err(e),
        }
    }

    /// The names of the user tables, as `.tables` lists them.
    pub fn tables(&self) -> (r: Result<Vec<String>, SqliteError>)
        requires
            self.wf(),
        ensures
            match r {
                Ok(v) => self.spec_catalog() is Ok && v@.map_values(|s: String| s@) == listed_tables(
                    self.spec_catalog()->Ok_0,
                ) && names_sorted(v@.map_values(|s: String| s@)),
                Err(e) => self.spec_catalog() == Err::<Seq<SchemaEntry>, SqliteError>(e),
            },
    {
        let schema = match self.schema() {
            Ok(s) => s,
            Err(e) => {
                return Err(e);
            },
        };
        let ghost es = schema@;
        proof {
            crate::schema::lemma_names_where_sorted(
                es,
                |e: SchemaEntry| is_table(e) && !contains_bytes(
                    encode_utf8(e.name),
                    encode_utf8("sqlite"@),
                ),
            );
        }
        let mut out: Vec<String> = Vec::new();
        let mut i: usize = 0;
        while i < schema.tables.len()
            invariant
                es == schema@,
                i <= schema.tables@.len(),
                out@.map_values(|s: String| s@) == listed_tables(es.subrange(0, i as int)),
            decreases schema.tables@.len() - i,
        {
            let t = &schema.tables[i];
            proof {
                assert(es.subrange(0, i + 1).drop_last() =~= es.subrange(0, i as int));
                assert(es[i as int] == t@);
            }
            if crate::schema::text_is(&t.sqlite_type, "table") && !contains(
                t.name.as_str().as_bytes(),
                "sqlite".as_bytes(),
            ) {
                let n = t.name.clone();
                proof {
                    assert(out@.push(n).map_values(|s: String| s@) =~= out@.map_values(
                        |s: String| s@,
                    ).push(n@));
                }
                out.push(n);
            }
            i = i + 1;
        }
        assert(es.subrange(0, i as int) =~= es);
        Ok(out)
    }
}

/// The names of the columns `cols`, in order.
pub open spec fn names_of(cols: Seq<ColumnModel>) -> Seq<Seq<u8>> {
    cols.map_values(|c: ColumnModel| c.name)
}

proof fn lemma_col_pos_unique(cols: Seq<ColumnModel>, i: int, k: int)
    requires
        0 <= k <= i < cols.len(),
        forall|a: int, b: int| 0 <= a < b < cols.len() ==> cols[a].name != cols[b].name,
    ensures
        col_pos_from(cols, cols[i].name, k) == Some(i),
    decreases i - k,
{
    if k < i {
        lemma_col_pos_unique(cols, i, k + 1);
    }
}

proof fn lemma_positions_identity(cols: Seq<ColumnModel>, m: int)
    requires
        0 <= m <= cols.len(),
        forall|a: int, b: int| 0 <= a < b < cols.len() ==> cols[a].name != cols[b].name,
    ensures
        positions(cols, names_of(cols).subrange(0, m)) == Some(Seq::new(m as nat, |i: int| i)),
    decreases m,
{
    let ns = names_of(cols).subrange(0, m);
    if m == 0 {
        assert(Seq::new(0, |i: int| i) =~= Seq::<int>::empty());
    } else {
        assert(ns.drop_last() =~= names_of(cols).subrange(0, m - 1));
        lemma_positions_identity(cols, m - 1);
        lemma_col_pos_unique(cols, m - 1, 0);
        assert(Seq::new((m - 1) as nat, |i: int| i).push(m - 1) =~= Seq::new(m as nat, |i: int| i));
    }
}

/// Projecting every declared column of a table, in declared order, gives
/// back the stored record, with the row id in place of a NULL in an `INTEGER
/// PRIMARY KEY` column. Column names are taken to be distinct, as SQLite
/// requires.
pub proof fn law_projection_identity(row_id: i64, values: Seq<Value>, cols: Seq<ColumnModel>)
    requires
        values.len() == cols.len(),
        forall|a: int, b: int| 0 <= a < b < cols.len() ==> cols[a].name != cols[b].name,
    ensures
        positions(cols, names_of(cols)) is Some,
        project(
            CellModel::TableLeaf { row_id, values },
            cols,
            positions(cols, names_of(cols))->Some_0,
        ) == Seq::new(
            values.len(),
            |i: int|
                if is_ipk(cols[i]) && values[i] is Null {
                    Value::Int(row_id as int)
                } else {
                    values[i]
                },
        ),
{
    lemma_positions_identity(cols, cols.len() as int);
    assert(names_of(cols).subrange(0, cols.len() as int) =~= names_of(cols));
    assert(project(
        CellModel::TableLeaf { row_id, values },
        cols,
        positions(cols, names_of(cols))->Some_0,
    ) =~= Seq::new(
        values.len(),
        |i: int|
            if is_ipk(cols[i]) && values[i] is Null {
                Value::Int(row_id as int)
            } else {
                values[i]
            },
    ));
}

/// The texts of `vals`, where every one has a text.
pub open spec fn texts_of(vals: Seq<Value>) -> Option<Seq<Seq<u8>>>
    decreases vals.len(),
{
    if vals.len() == 0 {
        Some(Seq::empty())
    } else {
        match (texts_of(vals.drop_last()), value_text(vals.last())) {
            (Some(ts), Some(t)) => Some(ts.push(t)),
            _ => None,
        }
    }
}

/// The line that shows a row: the texts of its values joined by `|`; `None`
/// where a value is a double.
pub fn render_row(row: &Vec<RecordValue>) -> (r: Option<Vec<u8>>)
    ensures
        match r {
            Some(line) => texts_of(values_view(row@)) is Some && line@ == joined(
                texts_of(values_view(row@))->Some_0,
            ),
            None => texts_of(values_view(row@)) is None,
        },
{
    let ghost vs = values_view(row@);
    let mut fields: Vec<Vec<u8>> = Vec::new();
    let mut i: usize = 0;
    while i < row.len()
        invariant
            vs == values_view(row@),
            i <= row@.len(),
            texts_of(vs.subrange(0, i as int)) == Some(fields@.map_values(|f: Vec<u8>| f@)),
        decreases row@.len() - i,
    {
        proof {
            assert(vs.subrange(0, i + 1).drop_last() =~= vs.subrange(0, i as int));
            assert(vs[i as int] == row@[i as int]@);
        }
        match text_of(&row[i]) {
            Some(t) => {
                proof {
                    assert(fields@.push(t).map_values(|f: Vec<u8>| f@) =~= fields@.map_values(
                        |f: Vec<u8>| f@,
                    ).push(t@));
                }
                fields.push(t);
            },
            None => {
                proof {
                    lemma_texts_none(vs, i as int + 1);
                    assert(vs.subrange(0, vs.len() as int) =~= vs);
                }
                return None;
            },
        }
        i = i + 1;
    }
    assert(vs.subrange(0, i as int) =~= vs);
    Some(join_fields(&fields))
}

proof fn lemma_texts_none(vs: Seq<Value>, k: int)
    requires
        1 <= k <= vs.len(),
        texts_of(vs.subrange(0, k)) is None,
    ensures
        texts_of(vs.subrange(0, vs.len() as int)) is None,
    decreases vs.len() - k,
{
    if k < vs.len() {
        assert(vs.subrange(0, k + 1).drop_last() =~= vs.subrange(0, k));
        lemma_texts_none(vs, k + 1);
    }
}

/// What a query asks of one row: an unknown column is an error whether or
/// not the filter passes; then the filter; then the projected values.
pub open spec fn spec_query_row(
    row: CellModel,
    cols: Seq<ColumnModel>,
    names: Seq<Seq<u8>>,
    filter: Option<(Seq<u8>, Seq<u8>)>,
) -> Result<Option<Seq<Value>>, SqliteError> {
    match positions(cols, names) {
        None => Err(SqliteError::UnknownColumn),
        Some(pos) => match filter {
            None => Ok(Some(project(row, cols, pos))),
            Some((c, v)) => match col_pos(cols, c) {
                None => Err(SqliteError::UnknownColumn),
                Some(f) => if column_value(row, cols, f) is Real {
                    Err(SqliteError::Unsupported(UnsupportedFeature::RealComparison))
                } else if row_matches(row, cols, f, v) {
                    Ok(Some(project(row, cols, pos)))
                } else {
                    Ok(None)
                },
            },
        },
    }
}

impl LeafCell {
    /// Applies a query to this row: the values of the columns `search_cols`,
    /// or `Ok(None)` where the filter rejects the row. A column that the table
    /// does not declare is an error, whatever the filter gives.
    pub fn query_row(
        &self,
        search_cols: &Vec<Vec<u8>>,
        schema_cols: &Vec<ColumnDefinition>,
        condition: &Option<crate::sql::Condition>,
    ) -> (r: Result<Option<Vec<RecordValue>>, SqliteError>)
        ensures
            spec_query_row(
                self@,
                columns_view(schema_cols@),
                crate::sql::texts_view(search_cols@),
                match condition {
                    Some(c) => Some((c.column@, c.value@)),
                    None => None,
                },
            ) == match r {
                Ok(Some(v)) => Ok::<Option<Seq<Value>>, SqliteError>(Some(values_view(v@))),
                Ok(None) => Ok::<Option<Seq<Value>>, SqliteError>(None),
                Err(e) => Err::<Option<Seq<Value>>, SqliteError>(e),
            },
    {
        let pos = match resolve_columns(schema_cols, search_cols) {
            Some(p) => p,
            None => {
                return Err(SqliteError::UnknownColumn);
            },
        };
        proof {
            lemma_positions_bound(columns_view(schema_cols@), crate::sql::texts_view(search_cols@));
            assert forall|k: int| 0 <= k < pos@.len() implies pos@[k] < schema_cols@.len() by {
                assert(positions_view(pos@)[k] == pos@[k] as int);
            }
        }
        match condition {
            Some(c) => {
                let f = match column_position(schema_cols, c.column.as_slice()) {
                    Some(f) => f,
                    None => {
                        return Err(SqliteError::UnknownColumn);
                    },
                };
                proof {
                    lemma_col_pos_bound(columns_view(schema_cols@), c.column@, 0);
                }
                match row_has(self, schema_cols, f, c.value.as_slice()) {
                    Some(true) => {},
                    Some(false) => {
                        return Ok(None);
                    },
                    None => {
                        return Err(SqliteError::Unsupported(UnsupportedFeature::RealComparison));
                    },
                }
            },
            None => {},
        }
        Ok(Some(project_row(self, schema_cols, &pos)))
    }
}

/// `SELECT COUNT(*) FROM t` gives the number of rows that an unfiltered
/// `SELECT` of any declared columns of `t` returns, where both succeed.
pub proof fn law_count_matches_select(rd: &SqliteReader, q1: Seq<u8>, q2: Seq<u8>)
    requires
        rd.wf(),
        spec_select(q1) is Ok,
        spec_select(q1)->Ok_0.count,
        spec_select(q2) is Ok,
        !spec_select(q2)->Ok_0.count,
        spec_select(q2)->Ok_0.filter is None,
        spec_select(q1)->Ok_0.table == spec_select(q2)->Ok_0.table,
        rd.spec_query(q1) is Ok,
        rd.spec_query(q2) is Ok,
        match rd.spec_query(q2) {
            Ok(OutputModel::Rows(rs)) => rs.len() <= u64::MAX,
            _ => true,
        },
    ensures
        match (rd.spec_query(q1), rd.spec_query(q2)) {
            (Ok(OutputModel::Count(n)), Ok(OutputModel::Rows(rs))) => n == rs.len(),
            _ => false,
        },
{
    let es = rd.spec_catalog()->Ok_0;
    let ti = first_where(es, table_named(spec_select(q1)->Ok_0.table))->Some_0;
    crate::reader::law_count_matches_scan(rd, es[ti].root_page);
}

} // verus!
