//! The database header, the pager, and the traversals of table and index
//! B-trees.
use crate::cell::{prepend, CellModel, DatabaseCell, LeafCell};
use crate::text::{compare_key, key_cmp};
use crate::codec::{lemma_pow_values, read_be_unsigned};
use crate::error::{SqliteError, UnsupportedFeature};
use crate::page::{
    be_at, cells_view, lemma_page_cells_fit, spec_page, BTreePage, BTreePageType, PageModel,
    HEADER_SIZE,
};
use vstd::prelude::*;

verus! {

/// Bytes 0 to 15 of a database file: `"SQLite format 3\0"`.
pub open spec fn has_magic(b: Seq<u8>) -> bool {
    &&& b.len() >= 16
    &&& b[0] == 0x53 && b[1] == 0x51 && b[2] == 0x4c && b[3] == 0x69
    &&& b[4] == 0x74 && b[5] == 0x65 && b[6] == 0x20 && b[7] == 0x66
    &&& b[8] == 0x6f && b[9] == 0x72 && b[10] == 0x6d && b[11] == 0x61
    &&& b[12] == 0x74 && b[13] == 0x20 && b[14] == 0x33 && b[15] == 0x00
}

/// A power of two from 512 to 65536.
pub open spec fn valid_page_size(n: int) -> bool {
    n == 512 || n == 1024 || n == 2048 || n == 4096 || n == 8192 || n == 16384 || n == 32768
        || n == 65536
}

/// The page size that the two bytes at offset 16 give: 1 stands for 65536.
pub open spec fn spec_page_size(b: Seq<u8>) -> int {
    if be_at(b, 16, 2) == 1 {
        65536
    } else {
        be_at(b, 16, 2) as int
    }
}

/// The parts of the 100-byte database header that reading needs.
#[derive(Debug, Clone, Copy)]
pub struct DatabaseHeader {
    pub page_size: u32,
    pub write_version: u8,
    pub read_version: u8,
    /// Bytes left unused at the end of each page.
    pub reserved_space: u8,
    pub file_change_counter: u32,
    /// The size of the database in pages.
    pub in_header_database_size: u32,
    pub schema_format_number: u32,
    pub text_encoding: u32,
    pub user_version: u32,
    pub application_id: u32,
    pub sqlite_version_number: u32,
}

/// The header that the bytes `b` open with.
#[verifier::opaque]
pub open spec fn spec_header(b: Seq<u8>) -> Result<DatabaseHeader, SqliteError> {
    if !has_magic(b) {
        Err(SqliteError::NotASqliteFile)
    } else if b.len() < HEADER_SIZE {
        Err(SqliteError::DecodeTruncated)
    } else if be_at(b, 56, 4) != 1 {
        Err(SqliteError::Unsupported(UnsupportedFeature::Encoding))
    } else if !valid_page_size(spec_page_size(b)) {
        Err(SqliteError::DecodeRecord)
    } else if spec_page_size(b) - b[20] < 480 {
        Err(SqliteError::DecodeRecord)
    } else {
        Ok(
            DatabaseHeader {
                page_size: spec_page_size(b) as u32,
                write_version: b[18],
                read_version: b[19],
                reserved_space: b[20],
                file_change_counter: be_at(b, 24, 4) as u32,
                in_header_database_size: be_at(b, 28, 4) as u32,
                schema_format_number: be_at(b, 44, 4) as u32,
                text_encoding: 1,
                user_version: be_at(b, 60, 4) as u32,
                application_id: be_at(b, 68, 4) as u32,
                sqlite_version_number: be_at(b, 96, 4) as u32,
            },
        )
    }
}

impl DatabaseHeader {
    /// Reads the database header at the start of `buf`. The page size it
    /// reports is a power of two from 512 to 65536.
    pub fn new(buf: &[u8]) -> (r: Result<DatabaseHeader, SqliteError>)
        ensures
            match r {
                Ok(h) => spec_header(buf@) == Ok::<DatabaseHeader, SqliteError>(h),
                Err(e) => spec_header(buf@) == Err::<DatabaseHeader, SqliteError>(e),
            },
            r is Ok ==> valid_page_size(r->Ok_0.page_size as int),
            r is Ok ==> r->Ok_0.page_size - r->Ok_0.reserved_space >= 480,
    {
        reveal(spec_header);
        let len = buf.len();
        if len < 16 {
            return Err(SqliteError::NotASqliteFile);
        }
        let magic = buf[0] == 0x53 && buf[1] == 0x51 && buf[2] == 0x4c && buf[3] == 0x69
            && buf[4] == 0x74 && buf[5] == 0x65 && buf[6] == 0x20 && buf[7] == 0x66 && buf[8]
            == 0x6f && buf[9] == 0x72 && buf[10] == 0x6d && buf[11] == 0x61 && buf[12] == 0x74
            && buf[13] == 0x20 && buf[14] == 0x33 && buf[15] == 0x00;
        if !magic {
            return Err(SqliteError::NotASqliteFile);
        }
        if len < HEADER_SIZE {
            return Err(SqliteError::DecodeTruncated);
        }
        proof {
            lemma_pow_values();
        }
        if read_be_unsigned(buf, 56, 4) != 1 {
            return Err(SqliteError::Unsupported(UnsupportedFeature::Encoding));
        }
        let raw = read_be_unsigned(buf, 16, 2);
        let page_size: u32 = if raw == 1 {
            65536
        } else {
            raw as u32
        };
        if !(page_size == 512 || page_size == 1024 || page_size == 2048 || page_size == 4096
            || page_size == 8192 || page_size == 16384 || page_size == 32768 || page_size
            == 65536) {
            return Err(SqliteError::DecodeRecord);
        }
        let reserved_space = buf[20];
        if page_size - (reserved_space as u32) < 480 {
            return Err(SqliteError::DecodeRecord);
        }
        Ok(DatabaseHeader {
            page_size,
            write_version: buf[18],
            read_version: buf[19],
            reserved_space,
            file_change_counter: read_be_unsigned(buf, 24, 4) as u32,
            in_header_database_size: read_be_unsigned(buf, 28, 4) as u32,
            schema_format_number: read_be_unsigned(buf, 44, 4) as u32,
            text_encoding: 1,
            user_version: read_be_unsigned(buf, 60, 4) as u32,
            application_id: read_be_unsigned(buf, 68, 4) as u32,
            sqlite_version_number: read_be_unsigned(buf, 96, 4) as u32,
        })
    }
}

/// A database file, held as its bytes, and its header.
pub struct SqliteReader<'a> {
    pub data: &'a [u8],
    pub database_header: DatabaseHeader,
}

impl<'a> SqliteReader<'a> {
    /// The header is the one that the bytes open with.
    pub open spec fn wf(&self) -> bool {
        &&& spec_header(self.data@) == Ok::<DatabaseHeader, SqliteError>(self.database_header)
        &&& valid_page_size(self.database_header.page_size as int)
        &&& self.database_header.page_size - self.database_header.reserved_space >= 480
    }

    pub open spec fn page_size(&self) -> int {
        self.database_header.page_size as int
    }

    pub open spec fn usable(&self) -> int {
        self.database_header.page_size - self.database_header.reserved_space
    }

    /// Page `n`, counted from 1.
    pub open spec fn spec_page_at(&self, n: int) -> Result<PageModel, SqliteError> {
        if n < 1 || n * self.page_size() > self.data@.len() {
            Err(SqliteError::IoOutOfRange)
        } else {
            spec_page(
                self.data@.subrange((n - 1) * self.page_size(), n * self.page_size()),
                n,
                self.usable(),
            )
        }
    }

    /// Opens the database whose file holds `data`.
    pub fn new(data: &'a [u8]) -> (r: Result<SqliteReader<'a>, SqliteError>)
        ensures
            match r {
                Ok(rd) => rd.wf() && rd.data@ == data@,
                Err(e) => spec_header(data@) == Err::<DatabaseHeader, SqliteError>(e),
            },
    {
        match DatabaseHeader::new(data) {
            Ok(database_header) => Ok(SqliteReader { data, database_header }),
            Err(e) => Err(e),
        }
    }

    /// Decodes page `n`, counted from 1 as pages are numbered on disk.
    pub fn page(&self, n: usize) -> (r: Result<BTreePage, SqliteError>)
        requires
            self.wf(),
        ensures
            match r {
                Ok(p) => self.spec_page_at(n as int) == Ok::<PageModel, SqliteError>(p@),
                Err(e) => self.spec_page_at(n as int) == Err::<PageModel, SqliteError>(e),
            },
    {
        let ps = self.database_header.page_size as u128;
        let len = self.data.len();
        if n < 1 {
            return Err(SqliteError::IoOutOfRange);
        }
        proof {
            assert(n as u128 * ps <= 0x1_0000_0000_0000_0000 * 65536) by (nonlinear_arith)
                requires
                    n <= 0xFFFF_FFFF_FFFF_FFFFu64,
                    ps <= 65536,
            ;
        }
        if (n as u128) * ps > len as u128 {
            return Err(SqliteError::IoOutOfRange);
        }
        proof {
            assert((n as u128 - 1) * ps <= n as u128 * ps) by (nonlinear_arith)
                requires
                    n >= 1,
            ;
        }
        let start = ((n as u128 - 1) * ps) as usize;
        let end = ((n as u128) * ps) as usize;
        proof {
            assert((n - 1) * ps == n * ps - ps) by (nonlinear_arith);
            assert(0 <= (n - 1) * ps) by (nonlinear_arith)
                requires
                    n >= 1,
            ;
        }
        let usable = (self.database_header.page_size - self.database_header.reserved_space as u32) as usize;
        BTreePage::new(&self.data[start..end], n, usable)
    }
}

pub open spec fn leaves_view(v: Seq<LeafCell>) -> Seq<CellModel> {
    v.map_values(|c: LeafCell| c@)
}

/// `a + b` as a row count, or an error where it passes `u64::MAX`.
pub open spec fn add_count(a: u64, b: int) -> Result<u64, SqliteError> {
    if a + b > u64::MAX {
        Err(SqliteError::DecodeRecord)
    } else {
        Ok((a + b) as u64)
    }
}

impl<'a> SqliteReader<'a> {
    /// How deep a B-tree walk may go: a tree cannot be deeper than the file
    /// has pages.
    pub open spec fn depth_budget(&self) -> nat {
        (self.data@.len() as int / self.page_size() + 1) as nat
    }

    /// The leaf cells of the table B-tree rooted at `page`, left to right,
    /// going at most `fuel` pages deep.
    pub open spec fn spec_rows(&self, page: int, fuel: nat) -> Result<Seq<CellModel>, SqliteError>
        decreases fuel, 0int,
    {
        if fuel == 0 {
            Err(SqliteError::DecodeRecord)
        } else {
            match self.spec_page_at(page) {
                Err(e) => Err(e),
                Ok(p) => if p.header.page_type == BTreePageType::LeafTable {
                    Ok(p.cells)
                } else if p.header.page_type == BTreePageType::InteriorTable {
                    match self.spec_rows_cells(p.cells, 0, (fuel - 1) as nat) {
                        Err(e) => Err(e),
                        Ok(left) => prepend(
                            left,
                            self.spec_rows(
                                p.header.rightmost_pointer->Some_0 as int,
                                (fuel - 1) as nat,
                            ),
                        ),
                    }
                } else {
                    Err(SqliteError::DecodeRecord)
                },
            }
        }
    }

    /// The leaf cells under the left children of `cells[i..]`.
    pub open spec fn spec_rows_cells(&self, cells: Seq<CellModel>, i: int, fuel: nat) -> Result<
        Seq<CellModel>,
        SqliteError,
    >
        decreases fuel, cells.len() - i,
    {
        if i >= cells.len() || i < 0 {
            Ok(Seq::empty())
        } else {
            match cells[i] {
                CellModel::TableInterior { left_child, .. } => match self.spec_rows(
                    left_child as int,
                    fuel,
                ) {
                    Err(e) => Err(e),
                    Ok(rs) => prepend(rs, self.spec_rows_cells(cells, i + 1, fuel)),
                },
                _ => Err(SqliteError::DecodeRecord),
            }
        }
    }

    /// The number of leaf cells of the table B-tree rooted at `page`.
    pub open spec fn spec_count(&self, page: int, fuel: nat) -> Result<u64, SqliteError>
        decreases fuel, 0int,
    {
        if fuel == 0 {
            Err(SqliteError::DecodeRecord)
        } else {
            match self.spec_page_at(page) {
                Err(e) => Err(e),
                Ok(p) => if p.header.page_type == BTreePageType::LeafTable {
                    Ok(p.cells.len() as u64)
                } else if p.header.page_type == BTreePageType::InteriorTable {
                    match self.spec_count_cells(p.cells, 0, (fuel - 1) as nat, 0) {
                        Err(e) => Err(e),
                        Ok(a) => match self.spec_count(
                            p.header.rightmost_pointer->Some_0 as int,
                            (fuel - 1) as nat,
                        ) {
                            Err(e) => Err(e),
                            Ok(b) => add_count(a, b as int),
                        },
                    }
                } else {
                    Err(SqliteError::DecodeRecord)
                },
            }
        }
    }

    /// `acc` plus the leaf cells under the left children of `cells[i..]`.
    pub open spec fn spec_count_cells(
        &self,
        cells: Seq<CellModel>,
        i: int,
        fuel: nat,
        acc: u64,
    ) -> Result<u64, SqliteError>
        decreases fuel, cells.len() - i,
    {
        if i >= cells.len() || i < 0 {
            Ok(acc)
        } else {
            match cells[i] {
                CellModel::TableInterior { left_child, .. } => match self.spec_count(
                    left_child as int,
                    fuel,
                ) {
                    Err(e) => Err(e),
                    Ok(c) => match add_count(acc, c as int) {
                        Err(e) => Err(e),
                        Ok(a) => self.spec_count_cells(cells, i + 1, fuel, a),
                    },
                },
                _ => Err(SqliteError::DecodeRecord),
            }
        }
    }

    proof fn lemma_page_fits(&self, page: int)
        requires
            self.spec_page_at(page) is Ok,
        ensures
            forall|j: int|
                0 <= j < self.spec_page_at(page)->Ok_0.cells.len() ==> crate::page::cell_fits(
                    self.spec_page_at(page)->Ok_0.header.page_type,
                    #[trigger] self.spec_page_at(page)->Ok_0.cells[j],
                ),
            self.spec_page_at(page)->Ok_0.header.page_type.spec_is_interior()
                ==> self.spec_page_at(page)->Ok_0.header.rightmost_pointer is Some,
    {
        lemma_page_cells_fit(
            self.data@.subrange((page - 1) * self.page_size(), page * self.page_size()),
            page,
            self.usable(),
        );
    }

    /// Collects the rows of the table B-tree rooted at `page`.
    fn rows_at(&self, page: usize, fuel: usize) -> (r: Result<Vec<LeafCell>, SqliteError>)
        requires
            self.wf(),
        ensures
            match r {
                Ok(v) => self.spec_rows(page as int, fuel as nat) == Ok::<
                    Seq<CellModel>,
                    SqliteError,
                >(leaves_view(v@)),
                Err(e) => self.spec_rows(page as int, fuel as nat) == Err::<
                    Seq<CellModel>,
                    SqliteError,
                >(e),
            },
        decreases fuel,
    {
        if fuel == 0 {
            return Err(SqliteError::DecodeRecord);
        }
        let p = match self.page(page) {
            Ok(p) => p,
            Err(e) => {
                return Err(e);
            },
        };
        proof {
            self.lemma_page_fits(page as int);
        }
        let ghost model = p@;
        match p.header.page_type {
            BTreePageType::LeafTable => {
                let mut cells = p.cells;
                let mut out: Vec<LeafCell> = Vec::new();
                while cells.len() > 0
                    invariant
                        model.header.page_type == BTreePageType::LeafTable,
                        forall|j: int|
                            0 <= j < model.cells.len() ==> crate::page::cell_fits(
                                BTreePageType::LeafTable,
                                #[trigger] model.cells[j],
                            ),
                        model.cells == leaves_view(out@) + cells_view(cells@),
                    decreases cells@.len(),
                {
                    let ghost before = cells@;
                    let c = cells.remove(0);
                    proof {
                        assert(cells_view(before) =~= seq![c@] + cells_view(cells@));
                        assert(model.cells[out@.len() as int] == c@);
                    }
                    match c {
                        DatabaseCell::LeafCell(x) => {
                            proof {
                                assert(leaves_view(out@.push(x)) + cells_view(cells@) =~= leaves_view(
                                    out@,
                                ) + cells_view(before));
                            }
                            out.push(x);
                        },
                        _ => {
                            proof {
                                assert(false);
                            }
                            return Err(SqliteError::DecodeRecord);
                        },
                    }
                }
                assert(leaves_view(out@) + cells_view(cells@) =~= leaves_view(out@));
                Ok(out)
            },
            BTreePageType::InteriorTable => {
                let ghost f = (fuel - 1) as nat;
                let mut out: Vec<LeafCell> = Vec::new();
                let mut i: usize = 0;
                assert(leaves_view(out@) =~= Seq::<CellModel>::empty());
                while i < p.cells.len()
                    invariant
                        self.wf(),
                        fuel > 0,
                        f == fuel - 1,
                        p@ == model,
                        self.spec_page_at(page as int) == Ok::<PageModel, SqliteError>(model),
                        model.header.page_type == BTreePageType::InteriorTable,
                        i <= p.cells@.len(),
                        self.spec_rows_cells(model.cells, 0, f) == prepend(
                            leaves_view(out@),
                            self.spec_rows_cells(model.cells, i as int, f),
                        ),
                    decreases p.cells@.len() - i,
                {
                    let left = match &p.cells[i] {
                        DatabaseCell::InteriorTableCell(c) => c.left_child,
                        _ => {
                            return Err(SqliteError::DecodeRecord);
                        },
                    };
                    let mut sub = match self.rows_at(left as usize, fuel - 1) {
                        Ok(v) => v,
                        Err(e) => {
                            return Err(e);
                        },
                    };
                    proof {
                        let rest = self.spec_rows_cells(model.cells, i + 1, f);
                        if let Ok(r) = rest {
                            assert(leaves_view(out@) + (leaves_view(sub@) + r) =~= leaves_view(out@ + sub@) + r);
                        }
                    }
                    out.append(&mut sub);
                    i = i + 1;
                }
                let right = match p.header.rightmost_pointer {
                    Some(r) => r,
                    None => {
                        return Err(SqliteError::DecodeRecord);
                    },
                };
                let mut sub = match self.rows_at(right as usize, fuel - 1) {
                    Ok(v) => v,
                    Err(e) => {
                        return Err(e);
                    },
                };
                proof {
                    assert(leaves_view(out@) + Seq::<CellModel>::empty() =~= leaves_view(out@));
                    assert(leaves_view(out@) + leaves_view(sub@) =~= leaves_view(out@ + sub@));
                }
                out.append(&mut sub);
                Ok(out)
            },
            _ => Err(SqliteError::DecodeRecord),
        }
    }
}

impl<'a> SqliteReader<'a> {
    fn depth_budget_exec(&self) -> (r: usize)
        requires
            self.wf(),
        ensures
            r == self.depth_budget(),
    {
        let len = self.data.len();
        let ps = self.database_header.page_size as usize;
        proof {
            assert(len as int / ps as int + 1 <= len as int / 2 + 1) by (nonlinear_arith)
                requires
                    ps >= 512,
                    len >= 0,
            ;
        }
        len / ps + 1
    }

    /// Counts the leaf cells of the table B-tree rooted at `page`.
    fn count_at(&self, page: usize, fuel: usize) -> (r: Result<u64, SqliteError>)
        requires
            self.wf(),
        ensures
            match r {
                Ok(n) => self.spec_count(page as int, fuel as nat) == Ok::<u64, SqliteError>(n),
                Err(e) => self.spec_count(page as int, fuel as nat) == Err::<u64, SqliteError>(e),
            },
        decreases fuel,
    {
        if fuel == 0 {
            return Err(SqliteError::DecodeRecord);
        }
        let p = match self.page(page) {
            Ok(p) => p,
            Err(e) => {
                return Err(e);
            },
        };
        let ghost model = p@;
        match p.header.page_type {
            BTreePageType::LeafTable => Ok(p.cells.len() as u64),
            BTreePageType::InteriorTable => {
                let ghost f = (fuel - 1) as nat;
                let mut acc: u64 = 0;
                let mut i: usize = 0;
                while i < p.cells.len()
                    invariant
                        self.wf(),
                        fuel > 0,
                        f == fuel - 1,
                        p@ == model,
                        self.spec_page_at(page as int) == Ok::<PageModel, SqliteError>(model),
                        model.header.page_type == BTreePageType::InteriorTable,
                        i <= p.cells@.len(),
                        self.spec_count_cells(model.cells, 0, f, 0) == self.spec_count_cells(
                            model.cells,
                            i as int,
                            f,
                            acc,
                        ),
                    decreases p.cells@.len() - i,
                {
                    let left = match &p.cells[i] {
                        DatabaseCell::InteriorTableCell(c) => c.left_child,
                        _ => {
                            return Err(SqliteError::DecodeRecord);
                        },
                    };
                    let c = match self.count_at(left as usize, fuel - 1) {
                        Ok(c) => c,
                        Err(e) => {
                            return Err(e);
                        },
                    };
                    if c > u64::MAX - acc {
                        return Err(SqliteError::DecodeRecord);
                    }
                    acc = acc + c;
                    i = i + 1;
                }
                let right = match p.header.rightmost_pointer {
                    Some(r) => r,
                    None => {
                        proof {
                            self.lemma_page_fits(page as int);
                        }
                        return Err(SqliteError::DecodeRecord);
                    },
                };
                let c = match self.count_at(right as usize, fuel - 1) {
                    Ok(c) => c,
                    Err(e) => {
                        return Err(e);
                    },
                };
                if c > u64::MAX - acc {
                    return Err(SqliteError::DecodeRecord);
                }
                Ok(acc + c)
            },
            _ => Err(SqliteError::DecodeRecord),
        }
    }

    /// Every row of the table whose B-tree is rooted at page `root`, in
    /// depth-first, left-to-right order.
    pub fn traverse_rows(&self, root: usize) -> (r: Result<Vec<LeafCell>, SqliteError>)
        requires
            self.wf(),
        ensures
            match r {
                Ok(v) => self.spec_rows(root as int, self.depth_budget()) == Ok::<
                    Seq<CellModel>,
                    SqliteError,
                >(leaves_view(v@)),
                Err(e) => self.spec_rows(root as int, self.depth_budget()) == Err::<
                    Seq<CellModel>,
                    SqliteError,
                >(e),
            },
    {
        let fuel = self.depth_budget_exec();
        self.rows_at(root, fuel)
    }

    /// The number of rows of the table whose B-tree is rooted at page `root`:
    /// the sum of the cell counts of its leaf pages.
    pub fn count_rows(&self, root: usize) -> (r: Result<u64, SqliteError>)
        requires
            self.wf(),
        ensures
            match r {
                Ok(n) => self.spec_count(root as int, self.depth_budget()) == Ok::<u64, SqliteError>(n),
                Err(e) => self.spec_count(root as int, self.depth_budget()) == Err::<u64, SqliteError>(e),
            },
    {
        let fuel = self.depth_budget_exec();
        self.count_at(root, fuel)
    }

    proof fn lemma_count_rows_at(&self, page: int, fuel: nat)
        requires
            self.spec_rows(page, fuel) is Ok,
            self.spec_rows(page, fuel)->Ok_0.len() <= u64::MAX,
        ensures
            self.spec_count(page, fuel) == Ok::<u64, SqliteError>(
                self.spec_rows(page, fuel)->Ok_0.len() as u64,
            ),
        decreases fuel, 0int,
    {
        let p = self.spec_page_at(page)->Ok_0;
        if p.header.page_type == BTreePageType::InteriorTable {
            let f = (fuel - 1) as nat;
            let left = self.spec_rows_cells(p.cells, 0, f)->Ok_0;
            let right = self.spec_rows(p.header.rightmost_pointer->Some_0 as int, f)->Ok_0;
            self.lemma_count_rows_cells(p.cells, 0, f, 0);
            self.lemma_count_rows_at(p.header.rightmost_pointer->Some_0 as int, f);
            assert(self.spec_rows(page, fuel)->Ok_0 == left + right);
        }
    }

    proof fn lemma_count_rows_cells(&self, cells: Seq<CellModel>, i: int, fuel: nat, acc: u64)
        requires
            self.spec_rows_cells(cells, i, fuel) is Ok,
            acc + self.spec_rows_cells(cells, i, fuel)->Ok_0.len() <= u64::MAX,
        ensures
            self.spec_count_cells(cells, i, fuel, acc) == Ok::<u64, SqliteError>(
                (acc + self.spec_rows_cells(cells, i, fuel)->Ok_0.len()) as u64,
            ),
        decreases fuel, cells.len() - i,
    {
        if 0 <= i < cells.len() {
            if let CellModel::TableInterior { left_child, .. } = cells[i] {
                let rs = self.spec_rows(left_child as int, fuel)->Ok_0;
                let rest = self.spec_rows_cells(cells, i + 1, fuel)->Ok_0;
                assert(self.spec_rows_cells(cells, i, fuel)->Ok_0 == rs + rest);
                self.lemma_count_rows_at(left_child as int, fuel);
                self.lemma_count_rows_cells(cells, i + 1, fuel, (acc + rs.len()) as u64);
            }
        }
    }
}

/// `COUNT(*)` agrees with a full scan: where the scan of the table rooted at
/// `root` succeeds, the count of that table is the number of rows it emits.
pub proof fn law_count_matches_scan(rd: &SqliteReader, root: int)
    requires
        rd.wf(),
        rd.spec_rows(root, rd.depth_budget()) is Ok,
        rd.spec_rows(root, rd.depth_budget())->Ok_0.len() <= u64::MAX,
    ensures
        rd.spec_count(root, rd.depth_budget()) == Ok::<u64, SqliteError>(
            rd.spec_rows(root, rd.depth_budget())->Ok_0.len() as u64,
        ),
{
    rd.lemma_count_rows_at(root, rd.depth_budget());
}

/// The row ids of the index leaf cells among `cells` whose key equals `key`.
pub open spec fn leaf_matches(cells: Seq<CellModel>, key: Seq<u8>) -> Seq<i64>
    decreases cells.len(),
{
    if cells.len() == 0 {
        Seq::empty()
    } else {
        let rest = leaf_matches(cells.drop_last(), key);
        match cells.last() {
            CellModel::IndexLeaf { key: k, row_id } => if key_cmp(key, k) == 0 {
                rest.push(row_id)
            } else {
                rest
            },
            _ => rest,
        }
    }
}

/// The table leaf cells among `cells` whose row id is `id`.
pub open spec fn rows_with_id(cells: Seq<CellModel>, id: i64) -> Seq<CellModel>
    decreases cells.len(),
{
    if cells.len() == 0 {
        Seq::empty()
    } else {
        let rest = rows_with_id(cells.drop_last(), id);
        match cells.last() {
            CellModel::TableLeaf { row_id, .. } => if row_id == id {
                rest.push(cells.last())
            } else {
                rest
            },
            _ => rest,
        }
    }
}

/// The left child of the first table interior cell of `cells[i..]` whose row
/// id is at least `id`.
pub open spec fn spec_route(cells: Seq<CellModel>, id: i64, i: int) -> Result<
    Option<u32>,
    SqliteError,
>
    decreases cells.len() - i,
{
    if i >= cells.len() || i < 0 {
        Ok(None)
    } else {
        match cells[i] {
            CellModel::TableInterior { left_child, row_id } => if id <= row_id {
                Ok(Some(left_child))
            } else {
                spec_route(cells, id, i + 1)
            },
            _ => Err(SqliteError::DecodeRecord),
        }
    }
}

/// `acc` and `d` put in front of the outcome `r` of a walk over index cells.
pub open spec fn combine(acc: Seq<i64>, d: bool, r: Result<(Seq<i64>, bool), SqliteError>) -> Result<
    (Seq<i64>, bool),
    SqliteError,
> {
    match r {
        Err(e) => Err(e),
        Ok((rest, d2)) => Ok((acc + rest, d || d2)),
    }
}

impl<'a> SqliteReader<'a> {
    /// The row ids that a descent of the index B-tree rooted at `page` finds
    /// for `key`.
    pub open spec fn spec_search(&self, page: int, key: Seq<u8>, fuel: nat) -> Result<
        Seq<i64>,
        SqliteError,
    >
        decreases fuel, 0int,
    {
        if fuel == 0 {
            Err(SqliteError::DecodeRecord)
        } else {
            match self.spec_page_at(page) {
                Err(e) => Err(e),
                Ok(p) => if p.header.page_type == BTreePageType::LeafIndex {
                    Ok(leaf_matches(p.cells, key))
                } else if p.header.page_type == BTreePageType::InteriorIndex {
                    match self.spec_search_cells(p.cells, key, 0, (fuel - 1) as nat) {
                        Err(e) => Err(e),
                        Ok((ids, descended)) => if descended {
                            Ok(ids)
                        } else {
                            prepend(
                                ids,
                                self.spec_search(
                                    p.header.rightmost_pointer->Some_0 as int,
                                    key,
                                    (fuel - 1) as nat,
                                ),
                            )
                        },
                    }
                } else {
                    Err(SqliteError::DecodeRecord)
                },
            }
        }
    }

    /// The walk over the cells `cells[i..]` of an interior index page: the row
    /// ids found, and whether it went down a left child.
    pub open spec fn spec_search_cells(
        &self,
        cells: Seq<CellModel>,
        key: Seq<u8>,
        i: int,
        fuel: nat,
    ) -> Result<(Seq<i64>, bool), SqliteError>
        decreases fuel, cells.len() - i,
    {
        if i >= cells.len() || i < 0 {
            Ok((Seq::empty(), false))
        } else {
            match cells[i] {
                CellModel::IndexInterior { left_child, key: k, row_id } => if key_cmp(key, k) < 0 {
                    match self.spec_search(left_child as int, key, fuel) {
                        Err(e) => Err(e),
                        Ok(ids) => Ok((ids, true)),
                    }
                } else if key_cmp(key, k) == 0 {
                    match self.spec_search(left_child as int, key, fuel) {
                        Err(e) => Err(e),
                        Ok(ids) => match self.spec_search_cells(cells, key, i + 1, fuel) {
                            Err(e) => Err(e),
                            Ok((rest, _)) => Ok((ids.push(row_id) + rest, true)),
                        },
                    }
                } else {
                    self.spec_search_cells(cells, key, i + 1, fuel)
                },
                _ => Err(SqliteError::DecodeRecord),
            }
        }
    }

    /// The rows with row id `id` that a descent of the table B-tree rooted at
    /// `page` finds.
    pub open spec fn spec_find(&self, page: int, id: i64, fuel: nat) -> Result<
        Seq<CellModel>,
        SqliteError,
    >
        decreases fuel,
    {
        if fuel == 0 {
            Err(SqliteError::DecodeRecord)
        } else {
            match self.spec_page_at(page) {
                Err(e) => Err(e),
                Ok(p) => if p.header.page_type == BTreePageType::LeafTable {
                    Ok(rows_with_id(p.cells, id))
                } else if p.header.page_type == BTreePageType::InteriorTable {
                    match spec_route(p.cells, id, 0) {
                        Err(e) => Err(e),
                        Ok(Some(child)) => self.spec_find(child as int, id, (fuel - 1) as nat),
                        Ok(None) => self.spec_find(
                            p.header.rightmost_pointer->Some_0 as int,
                            id,
                            (fuel - 1) as nat,
                        ),
                    }
                } else {
                    Err(SqliteError::DecodeRecord)
                },
            }
        }
    }

    /// The rows that the lookups of `ids[j..]` find, in that order.
    pub open spec fn spec_lookups(&self, root: int, ids: Seq<i64>, j: int) -> Result<
        Seq<CellModel>,
        SqliteError,
    >
        decreases ids.len() - j,
    {
        if j >= ids.len() || j < 0 {
            Ok(Seq::empty())
        } else {
            match self.spec_find(root, ids[j], self.depth_budget()) {
                Err(e) => Err(e),
                Ok(rs) => prepend(rs, self.spec_lookups(root, ids, j + 1)),
            }
        }
    }

    fn search_at(&self, page: usize, key: &[u8], fuel: usize) -> (r: Result<Vec<i64>, SqliteError>)
        requires
            self.wf(),
        ensures
            match r {
                Ok(v) => self.spec_search(page as int, key@, fuel as nat) == Ok::<
                    Seq<i64>,
                    SqliteError,
                >(v@),
                Err(e) => self.spec_search(page as int, key@, fuel as nat) == Err::<
                    Seq<i64>,
                    SqliteError,
                >(e),
            },
        decreases fuel,
    {
        if fuel == 0 {
            return Err(SqliteError::DecodeRecord);
        }
        let p = match self.page(page) {
            Ok(p) => p,
            Err(e) => {
                return Err(e);
            },
        };
        let ghost model = p@;
        match p.header.page_type {
            BTreePageType::LeafIndex => {
                let mut out: Vec<i64> = Vec::new();
                let mut i: usize = 0;
                while i < p.cells.len()
                    invariant
                        p@ == model,
                        i <= p.cells@.len(),
                        out@ == leaf_matches(model.cells.subrange(0, i as int), key@),
                    decreases p.cells@.len() - i,
                {
                    proof {
                        assert(model.cells.subrange(0, i + 1).drop_last() =~= model.cells.subrange(
                            0,
                            i as int,
                        ));
                        assert(model.cells[i as int] == p.cells@[i as int]@);
                    }
                    match &p.cells[i] {
                        DatabaseCell::IndexLeafCell(c) => {
                            if compare_key(key, &c.key) == 0 {
                                out.push(c.row_id);
                            }
                        },
                        _ => {},
                    }
                    i = i + 1;
                }
                assert(model.cells.subrange(0, i as int) =~= model.cells);
                Ok(out)
            },
            BTreePageType::InteriorIndex => {
                let ghost f = (fuel - 1) as nat;
                let ghost cells = model.cells;
                let mut out: Vec<i64> = Vec::new();
                let mut descended = false;
                let mut stop = false;
                let mut i: usize = 0;
                while i < p.cells.len() && !stop
                    invariant
                        self.wf(),
                        fuel > 0,
                        f == fuel - 1,
                        p@ == model,
                        cells == model.cells,
                        self.spec_page_at(page as int) == Ok::<PageModel, SqliteError>(model),
                        model.header.page_type == BTreePageType::InteriorIndex,
                        i <= p.cells@.len(),
                        !stop ==> self.spec_search_cells(cells, key@, 0, f) == combine(
                            out@,
                            descended,
                            self.spec_search_cells(cells, key@, i as int, f),
                        ),
                        stop ==> self.spec_search_cells(cells, key@, 0, f) == Ok::<
                            (Seq<i64>, bool),
                            SqliteError,
                        >((out@, true)) && descended,
                    decreases p.cells@.len() - i,
                {
                    proof {
                        assert(cells[i as int] == p.cells@[i as int]@);
                    }
                    let (left, c, row_id) = match &p.cells[i] {
                        DatabaseCell::InteriorIndexCell(c) => (
                            c.left_child,
                            compare_key(key, &c.key),
                            c.row_id,
                        ),
                        _ => {
                            return Err(SqliteError::DecodeRecord);
                        },
                    };
                    if c < 0 {
                        let sub = match self.search_at(left as usize, key, fuel - 1) {
                            Ok(v) => v,
                            Err(e) => {
                                return Err(e);
                            },
                        };
                        let mut sub = sub;
                        out.append(&mut sub);
                        descended = true;
                        stop = true;
                        i = i + 1;
                    } else if c == 0 {
                        let sub = match self.search_at(left as usize, key, fuel - 1) {
                            Ok(v) => v,
                            Err(e) => {
                                return Err(e);
                            },
                        };
                        proof {
                            let rest = self.spec_search_cells(cells, key@, i + 1, f);
                            if let Ok((r, d2)) = rest {
                                assert(out@ + (sub@.push(row_id) + r) =~= (out@ + sub@).push(row_id)
                                    + r);
                            }
                        }
                        let mut sub = sub;
                        out.append(&mut sub);
                        out.push(row_id);
                        descended = true;
                        i = i + 1;
                    } else {
                        i = i + 1;
                    }
                }
                proof {
                    if !stop {
                        assert(out@ + Seq::<i64>::empty() =~= out@);
                    }
                }
                if descended {
                    return Ok(out);
                }
                let right = match p.header.rightmost_pointer {
                    Some(r) => r,
                    None => {
                        proof {
                            self.lemma_page_fits(page as int);
                        }
                        return Err(SqliteError::DecodeRecord);
                    },
                };
                let mut sub = match self.search_at(right as usize, key, fuel - 1) {
                    Ok(v) => v,
                    Err(e) => {
                        return Err(e);
                    },
                };
                out.append(&mut sub);
                Ok(out)
            },
            _ => Err(SqliteError::DecodeRecord),
        }
    }
}

impl<'a> SqliteReader<'a> {
    fn find_at(&self, page: usize, id: i64, fuel: usize) -> (r: Result<Vec<LeafCell>, SqliteError>)
        requires
            self.wf(),
        ensures
            match r {
                Ok(v) => self.spec_find(page as int, id, fuel as nat) == Ok::<
                    Seq<CellModel>,
                    SqliteError,
                >(leaves_view(v@)),
                Err(e) => self.spec_find(page as int, id, fuel as nat) == Err::<
                    Seq<CellModel>,
                    SqliteError,
                >(e),
            },
        decreases fuel,
    {
        if fuel == 0 {
            return Err(SqliteError::DecodeRecord);
        }
        let p = match self.page(page) {
            Ok(p) => p,
            Err(e) => {
                return Err(e);
            },
        };
        let ghost model = p@;
        match p.header.page_type {
            BTreePageType::LeafTable => {
                let mut cells = p.cells;
                let mut out: Vec<LeafCell> = Vec::new();
                let ghost mut done: int = 0;
                while cells.len() > 0
                    invariant
                        0 <= done <= model.cells.len(),
                        cells_view(cells@) == model.cells.subrange(done, model.cells.len() as int),
                        leaves_view(out@) == rows_with_id(model.cells.subrange(0, done), id),
                    decreases cells@.len(),
                {
                    let ghost before = cells@;
                    let c = cells.remove(0);
                    proof {
                        assert(cells_view(before) =~= seq![c@] + cells_view(cells@));
                        assert(before.len() > 0);
                        assert(cells_view(before).len() == model.cells.len() - done);
                        assert(cells_view(before)[0] == c@);
                        assert(cells_view(before)[0] == model.cells.subrange(
                            done,
                            model.cells.len() as int,
                        )[0]);
                        assert(model.cells[done] == c@);
                        assert(model.cells.subrange(0, done + 1).drop_last() =~= model.cells.subrange(
                            0,
                            done,
                        ));
                        assert(cells_view(cells@) =~= cells_view(before).subrange(
                            1,
                            cells_view(before).len() as int,
                        ));
                        assert(cells_view(cells@) =~= model.cells.subrange(
                            done + 1,
                            model.cells.len() as int,
                        ));
                    }
                    match c {
                        DatabaseCell::LeafCell(x) => {
                            if x.row_id == id {
                                proof {
                                    assert(leaves_view(out@.push(x)) =~= leaves_view(out@).push(x@));
                                }
                                out.push(x);
                            }
                        },
                        _ => {},
                    }
                    proof {
                        done = done + 1;
                    }
                }
                assert(model.cells.subrange(0, done) =~= model.cells);
                Ok(out)
            },
            BTreePageType::InteriorTable => {
                let mut child: Option<u32> = None;
                let mut i: usize = 0;
                while i < p.cells.len() && child.is_none()
                    invariant
                        p@ == model,
                        fuel > 0,
                        self.spec_page_at(page as int) == Ok::<PageModel, SqliteError>(model),
                        model.header.page_type == BTreePageType::InteriorTable,
                        i <= p.cells@.len(),
                        child is None ==> spec_route(model.cells, id, 0) == spec_route(
                            model.cells,
                            id,
                            i as int,
                        ),
                        child is Some ==> spec_route(model.cells, id, 0) == Ok::<
                            Option<u32>,
                            SqliteError,
                        >(child),
                    decreases p.cells@.len() - i,
                {
                    proof {
                        assert(model.cells[i as int] == p.cells@[i as int]@);
                    }
                    match &p.cells[i] {
                        DatabaseCell::InteriorTableCell(c) => {
                            if id <= c.row_id {
                                child = Some(c.left_child);
                            }
                        },
                        _ => {
                            return Err(SqliteError::DecodeRecord);
                        },
                    }
                    i = i + 1;
                }
                let next = match child {
                    Some(c) => c,
                    None => match p.header.rightmost_pointer {
                        Some(r) => r,
                        None => {
                            proof {
                                self.lemma_page_fits(page as int);
                            }
                            return Err(SqliteError::DecodeRecord);
                        },
                    },
                };
                self.find_at(next as usize, id, fuel - 1)
            },
            _ => Err(SqliteError::DecodeRecord),
        }
    }

    /// The row ids that the index B-tree rooted at page `root` lists under
    /// `key`, found by descending it with byte-wise key comparison.
    pub fn search_index(&self, root: usize, key: &[u8]) -> (r: Result<Vec<i64>, SqliteError>)
        requires
            self.wf(),
        ensures
            match r {
                Ok(v) => self.spec_search(root as int, key@, self.depth_budget()) == Ok::<
                    Seq<i64>,
                    SqliteError,
                >(v@),
                Err(e) => self.spec_search(root as int, key@, self.depth_budget()) == Err::<
                    Seq<i64>,
                    SqliteError,
                >(e),
            },
    {
        let fuel = self.depth_budget_exec();
        self.search_at(root, key, fuel)
    }

    /// The rows of the table rooted at page `root` whose row ids are `ids`, in
    /// the order of `ids`; each is found by a descent keyed by row id.
    pub fn traverse_indexed_rows(&self, root: usize, ids: &Vec<i64>) -> (r: Result<
        Vec<LeafCell>,
        SqliteError,
    >)
        requires
            self.wf(),
        ensures
            match r {
                Ok(v) => self.spec_lookups(root as int, ids@, 0) == Ok::<
                    Seq<CellModel>,
                    SqliteError,
                >(leaves_view(v@)),
                Err(e) => self.spec_lookups(root as int, ids@, 0) == Err::<
                    Seq<CellModel>,
                    SqliteError,
                >(e),
            },
    {
        let fuel = self.depth_budget_exec();
        let mut out: Vec<LeafCell> = Vec::new();
        let mut j: usize = 0;
        assert(leaves_view(out@) =~= Seq::<CellModel>::empty());
        while j < ids.len()
            invariant
                self.wf(),
                fuel == self.depth_budget(),
                j <= ids@.len(),
                self.spec_lookups(root as int, ids@, 0) == prepend(
                    leaves_view(out@),
                    self.spec_lookups(root as int, ids@, j as int),
                ),
            decreases ids@.len() - j,
        {
            let mut sub = match self.find_at(root, ids[j], fuel) {
                Ok(v) => v,
                Err(e) => {
                    return Err(e);
                },
            };
            proof {
                let rest = self.spec_lookups(root as int, ids@, j + 1);
                if let Ok(r) = rest {
                    assert(leaves_view(out@) + (leaves_view(sub@) + r) =~= leaves_view(out@ + sub@)
                        + r);
                }
            }
            out.append(&mut sub);
            j = j + 1;
        }
        assert(leaves_view(out@) + Seq::<CellModel>::empty() =~= leaves_view(out@));
        Ok(out)
    }
}

/// `c` is an index entry for `key` that points at row `id`.
pub open spec fn entry_matches(c: CellModel, key: Seq<u8>, id: i64) -> bool {
    match c {
        CellModel::IndexLeaf { key: k, row_id } => key_cmp(key, k) == 0 && row_id == id,
        CellModel::IndexInterior { key: k, row_id, .. } => key_cmp(key, k) == 0 && row_id == id,
        _ => false,
    }
}

/// Some entry of `es` is for `key` and points at row `id`.
pub open spec fn listed(es: Seq<CellModel>, key: Seq<u8>, id: i64) -> bool {
    exists|j: int| 0 <= j < es.len() && entry_matches(#[trigger] es[j], key, id)
}

proof fn lemma_listed_left(a: Seq<CellModel>, b: Seq<CellModel>, key: Seq<u8>, id: i64)
    requires
        listed(a, key, id),
    ensures
        listed(a + b, key, id),
{
    let j = choose|j: int| 0 <= j < a.len() && entry_matches(#[trigger] a[j], key, id);
    assert((a + b)[j] == a[j]);
}

proof fn lemma_listed_right(a: Seq<CellModel>, b: Seq<CellModel>, key: Seq<u8>, id: i64)
    requires
        listed(b, key, id),
    ensures
        listed(a + b, key, id),
{
    let j = choose|j: int| 0 <= j < b.len() && entry_matches(#[trigger] b[j], key, id);
    assert((a + b)[a.len() + j] == b[j]);
}

proof fn lemma_leaf_matches_listed(cells: Seq<CellModel>, key: Seq<u8>)
    ensures
        forall|k: int|
            0 <= k < leaf_matches(cells, key).len() ==> listed(
                cells,
                key,
                #[trigger] leaf_matches(cells, key)[k],
            ),
    decreases cells.len(),
{
    if cells.len() > 0 {
        let d = cells.drop_last();
        lemma_leaf_matches_listed(d, key);
        let ids = leaf_matches(cells, key);
        assert forall|k: int| 0 <= k < ids.len() implies listed(cells, key, #[trigger] ids[k]) by {
            if k < leaf_matches(d, key).len() {
                assert(ids[k] == leaf_matches(d, key)[k]);
                assert(cells =~= d + seq![cells.last()]);
                lemma_listed_left(d, seq![cells.last()], key, ids[k]);
            } else {
                assert(entry_matches(cells[cells.len() - 1], key, ids[k]));
            }
        }
    }
}

impl<'a> SqliteReader<'a> {
    /// Every entry of the index B-tree rooted at `page`, in key order: each
    /// left subtree, then the interior entry after it, then the right-most
    /// child.
    pub open spec fn spec_index_entries(&self, page: int, fuel: nat) -> Result<
        Seq<CellModel>,
        SqliteError,
    >
        decreases fuel, 0int,
    {
        if fuel == 0 {
            Err(SqliteError::DecodeRecord)
        } else {
            match self.spec_page_at(page) {
                Err(e) => Err(e),
                Ok(p) => if p.header.page_type == BTreePageType::LeafIndex {
                    Ok(p.cells)
                } else if p.header.page_type == BTreePageType::InteriorIndex {
                    match self.spec_index_entries_cells(p.cells, 0, (fuel - 1) as nat) {
                        Err(e) => Err(e),
                        Ok(xs) => prepend(
                            xs,
                            self.spec_index_entries(
                                p.header.rightmost_pointer->Some_0 as int,
                                (fuel - 1) as nat,
                            ),
                        ),
                    }
                } else {
                    Err(SqliteError::DecodeRecord)
                },
            }
        }
    }

    pub open spec fn spec_index_entries_cells(
        &self,
        cells: Seq<CellModel>,
        i: int,
        fuel: nat,
    ) -> Result<Seq<CellModel>, SqliteError>
        decreases fuel, cells.len() - i,
    {
        if i >= cells.len() || i < 0 {
            Ok(Seq::empty())
        } else {
            match cells[i] {
                CellModel::IndexInterior { left_child, .. } => match self.spec_index_entries(
                    left_child as int,
                    fuel,
                ) {
                    Err(e) => Err(e),
                    Ok(xs) => prepend(xs.push(cells[i]), self.spec_index_entries_cells(cells, i + 1, fuel)),
                },
                _ => Err(SqliteError::DecodeRecord),
            }
        }
    }

    proof fn lemma_search_sound(&self, page: int, key: Seq<u8>, fuel: nat)
        requires
            self.spec_search(page, key, fuel) is Ok,
            self.spec_index_entries(page, fuel) is Ok,
        ensures
            forall|k: int|
                0 <= k < self.spec_search(page, key, fuel)->Ok_0.len() ==> listed(
                    self.spec_index_entries(page, fuel)->Ok_0,
                    key,
                    #[trigger] self.spec_search(page, key, fuel)->Ok_0[k],
                ),
        decreases fuel, 0int,
    {
        let p = self.spec_page_at(page)->Ok_0;
        let ids = self.spec_search(page, key, fuel)->Ok_0;
        let es = self.spec_index_entries(page, fuel)->Ok_0;
        if p.header.page_type == BTreePageType::LeafIndex {
            lemma_leaf_matches_listed(p.cells, key);
        } else {
            let f = (fuel - 1) as nat;
            let right = p.header.rightmost_pointer->Some_0 as int;
            let (cids, d) = self.spec_search_cells(p.cells, key, 0, f)->Ok_0;
            let ces = self.spec_index_entries_cells(p.cells, 0, f)->Ok_0;
            let res = self.spec_index_entries(right, f)->Ok_0;
            assert(es == ces + res);
            self.lemma_search_cells_sound(p.cells, key, 0, f);
            if d {
                assert(ids == cids);
                assert forall|k: int| 0 <= k < ids.len() implies listed(es, key, #[trigger] ids[k]) by {
                    lemma_listed_left(ces, res, key, ids[k]);
                }
            } else {
                let rids = self.spec_search(right, key, f)->Ok_0;
                self.lemma_search_sound(right, key, f);
                assert(ids == cids + rids);
                assert forall|k: int| 0 <= k < ids.len() implies listed(es, key, #[trigger] ids[k]) by {
                    if k < cids.len() {
                        assert(ids[k] == cids[k]);
                        lemma_listed_left(ces, res, key, ids[k]);
                    } else {
                        assert(ids[k] == rids[k - cids.len()]);
                        lemma_listed_right(ces, res, key, ids[k]);
                    }
                }
            }
        }
    }

    proof fn lemma_search_cells_sound(&self, cells: Seq<CellModel>, key: Seq<u8>, i: int, fuel: nat)
        requires
            self.spec_search_cells(cells, key, i, fuel) is Ok,
            self.spec_index_entries_cells(cells, i, fuel) is Ok,
        ensures
            forall|k: int|
                0 <= k < self.spec_search_cells(cells, key, i, fuel)->Ok_0.0.len() ==> listed(
                    self.spec_index_entries_cells(cells, i, fuel)->Ok_0,
                    key,
                    #[trigger] self.spec_search_cells(cells, key, i, fuel)->Ok_0.0[k],
                ),
        decreases fuel, cells.len() - i,
    {
        if 0 <= i < cells.len() {
            if let CellModel::IndexInterior { left_child, key: ck, row_id } = cells[i] {
                let ids = self.spec_search_cells(cells, key, i, fuel)->Ok_0.0;
                let es = self.spec_index_entries_cells(cells, i, fuel)->Ok_0;
                let les = self.spec_index_entries(left_child as int, fuel)->Ok_0;
                let rest_es = self.spec_index_entries_cells(cells, i + 1, fuel)->Ok_0;
                assert(es == les.push(cells[i]) + rest_es);
                assert(les.push(cells[i]) =~= les + seq![cells[i]]);
                if key_cmp(key, ck) < 0 {
                    let lids = self.spec_search(left_child as int, key, fuel)->Ok_0;
                    self.lemma_search_sound(left_child as int, key, fuel);
                    assert forall|k: int| 0 <= k < ids.len() implies listed(es, key, #[trigger] ids[k]) by {
                        lemma_listed_left(les, seq![cells[i]], key, ids[k]);
                        lemma_listed_left(les.push(cells[i]), rest_es, key, ids[k]);
                    }
                } else if key_cmp(key, ck) == 0 {
                    let lids = self.spec_search(left_child as int, key, fuel)->Ok_0;
                    let rids = self.spec_search_cells(cells, key, i + 1, fuel)->Ok_0.0;
                    self.lemma_search_sound(left_child as int, key, fuel);
                    self.lemma_search_cells_sound(cells, key, i + 1, fuel);
                    assert(ids == lids.push(row_id) + rids);
                    assert forall|k: int| 0 <= k < ids.len() implies listed(es, key, #[trigger] ids[k]) by {
                        if k < lids.len() {
                            assert(ids[k] == lids[k]);
                            lemma_listed_left(les, seq![cells[i]], key, ids[k]);
                            lemma_listed_left(les.push(cells[i]), rest_es, key, ids[k]);
                        } else if k == lids.len() {
                            assert(ids[k] == row_id);
                            assert(entry_matches(seq![cells[i]][0], key, ids[k]));
                            lemma_listed_right(les, seq![cells[i]], key, ids[k]);
                            lemma_listed_left(les.push(cells[i]), rest_es, key, ids[k]);
                        } else {
                            assert(ids[k] == rids[k - lids.len() - 1]);
                            lemma_listed_right(les.push(cells[i]), rest_es, key, ids[k]);
                        }
                    }
                } else {
                    self.lemma_search_cells_sound(cells, key, i + 1, fuel);
                    assert forall|k: int| 0 <= k < ids.len() implies listed(es, key, #[trigger] ids[k]) by {
                        lemma_listed_right(les.push(cells[i]), rest_es, key, ids[k]);
                    }
                }
            }
        }
    }
}

/// The index descent finds no row that the index does not list under the
/// key: every row id it returns belongs to an entry of the index B-tree
/// whose key equals the search key byte for byte.
pub proof fn law_index_descent_sound(rd: &SqliteReader, root: int, key: Seq<u8>)
    requires
        rd.spec_search(root, key, rd.depth_budget()) is Ok,
        rd.spec_index_entries(root, rd.depth_budget()) is Ok,
    ensures
        forall|k: int|
            0 <= k < rd.spec_search(root, key, rd.depth_budget())->Ok_0.len() ==> listed(
                rd.spec_index_entries(root, rd.depth_budget())->Ok_0,
                key,
                #[trigger] rd.spec_search(root, key, rd.depth_budget())->Ok_0[k],
            ),
{
    rd.lemma_search_sound(root, key, rd.depth_budget());
}

/// The row ids of the entries of `es` whose key equals `key`, in order.
pub open spec fn equal_ids(es: Seq<CellModel>, key: Seq<u8>) -> Seq<i64>
    decreases es.len(),
{
    if es.len() == 0 {
        Seq::empty()
    } else {
        match es.last() {
            CellModel::IndexLeaf { key: k, row_id } => if key_cmp(key, k) == 0 {
                equal_ids(es.drop_last(), key).push(row_id)
            } else {
                equal_ids(es.drop_last(), key)
            },
            CellModel::IndexInterior { key: k, row_id, .. } => if key_cmp(key, k) == 0 {
                equal_ids(es.drop_last(), key).push(row_id)
            } else {
                equal_ids(es.drop_last(), key)
            },
            _ => equal_ids(es.drop_last(), key),
        }
    }
}

/// Where `key` falls against an index entry: 1 after it, 0 equal, -1 before.
pub open spec fn entry_cmp(key: Seq<u8>, c: CellModel) -> int {
    match c {
        CellModel::IndexLeaf { key: k, .. } => key_cmp(key, k),
        CellModel::IndexInterior { key: k, .. } => key_cmp(key, k),
        _ => 1,
    }
}

/// The entries, in order, go from those `key` follows to those it precedes:
/// what byte-wise key order gives for any one key.
pub open spec fn ordered_for(es: Seq<CellModel>, key: Seq<u8>) -> bool {
    forall|i: int, j: int|
        0 <= i < j < es.len() ==> entry_cmp(key, #[trigger] es[i]) >= entry_cmp(key, #[trigger] es[j])
}

proof fn lemma_equal_ids_concat(a: Seq<CellModel>, b: Seq<CellModel>, key: Seq<u8>)
    ensures
        equal_ids(a + b, key) == equal_ids(a, key) + equal_ids(b, key),
    decreases b.len(),
{
    if b.len() == 0 {
        assert(a + b =~= a);
        assert(equal_ids(a, key) + equal_ids(b, key) =~= equal_ids(a, key));
    } else {
        lemma_equal_ids_concat(a, b.drop_last(), key);
        assert((a + b).drop_last() =~= a + b.drop_last());
        assert((a + b).last() == b.last());
        let ea = equal_ids(a, key);
        let eb = equal_ids(b.drop_last(), key);
        assert((ea + eb).push(b.last()->IndexLeaf_row_id) =~= ea + eb.push(b.last()->IndexLeaf_row_id));
        assert((ea + eb).push(b.last()->IndexInterior_row_id) =~= ea + eb.push(
            b.last()->IndexInterior_row_id,
        ));
    }
}

/// No entry of `es` has a key equal to `key`.
proof fn lemma_equal_ids_none(es: Seq<CellModel>, key: Seq<u8>)
    requires
        forall|i: int| 0 <= i < es.len() ==> entry_cmp(key, #[trigger] es[i]) != 0,
    ensures
        equal_ids(es, key) == Seq::<i64>::empty(),
    decreases es.len(),
{
    if es.len() > 0 {
        assert(entry_cmp(key, es[es.len() - 1]) != 0);
        lemma_equal_ids_none(es.drop_last(), key);
    }
}

proof fn lemma_ordered_sub(es: Seq<CellModel>, key: Seq<u8>, a: int, b: int)
    requires
        ordered_for(es, key),
        0 <= a <= b <= es.len(),
    ensures
        ordered_for(es.subrange(a, b), key),
{
    assert forall|i: int, j: int| 0 <= i < j < es.subrange(a, b).len() implies entry_cmp(
        key,
        #[trigger] es.subrange(a, b)[i],
    ) >= entry_cmp(key, #[trigger] es.subrange(a, b)[j]) by {
        assert(es.subrange(a, b)[i] == es[a + i] && es.subrange(a, b)[j] == es[a + j]);
    }
}

impl<'a> SqliteReader<'a> {
    /// On every interior page of the index B-tree rooted at `page` whose last
    /// cell's key equals `key`, the right-most subtree holds no entry equal to
    /// `key`: the case that the descent, which takes the right-most child only
    /// when it went down no left child, would miss.
    pub open spec fn no_right_dups(&self, page: int, key: Seq<u8>, fuel: nat) -> bool
        decreases fuel, 0int,
    {
        if fuel == 0 {
            true
        } else {
            match self.spec_page_at(page) {
                Err(_) => true,
                Ok(p) => if p.header.page_type == BTreePageType::InteriorIndex {
                    let f = (fuel - 1) as nat;
                    let right = p.header.rightmost_pointer->Some_0 as int;
                    &&& self.no_right_dups_cells(p.cells, key, 0, f)
                    &&& self.no_right_dups(right, key, f)
                    &&& (p.cells.len() > 0 && entry_cmp(key, p.cells.last()) == 0
                        ==> self.spec_index_entries(right, f) is Ok ==> equal_ids(
                        self.spec_index_entries(right, f)->Ok_0,
                        key,
                    ) == Seq::<i64>::empty())
                } else {
                    true
                },
            }
        }
    }

    pub open spec fn no_right_dups_cells(&self, cells: Seq<CellModel>, key: Seq<u8>, i: int, fuel: nat) -> bool
        decreases fuel, cells.len() - i,
    {
        if i >= cells.len() || i < 0 {
            true
        } else {
            match cells[i] {
                CellModel::IndexInterior { left_child, .. } => self.no_right_dups(
                    left_child as int,
                    key,
                    fuel,
                ) && self.no_right_dups_cells(cells, key, i + 1, fuel),
                _ => true,
            }
        }
    }
}

proof fn lemma_split_order(l: Seq<CellModel>, c: CellModel, t: Seq<CellModel>, key: Seq<u8>)
    requires
        ordered_for(l.push(c) + t, key),
    ensures
        ordered_for(l, key),
        ordered_for(t, key),
        forall|x: int| 0 <= x < l.len() ==> entry_cmp(key, #[trigger] l[x]) >= entry_cmp(key, c),
        forall|x: int| 0 <= x < t.len() ==> entry_cmp(key, #[trigger] t[x]) <= entry_cmp(key, c),
{
    let s = l.push(c) + t;
    lemma_ordered_sub(s, key, 0, l.len() as int);
    assert(s.subrange(0, l.len() as int) =~= l);
    lemma_ordered_sub(s, key, l.len() as int + 1, s.len() as int);
    assert(s.subrange(l.len() as int + 1, s.len() as int) =~= t);
    assert(s[l.len() as int] == c);
    assert forall|x: int| 0 <= x < l.len() implies entry_cmp(key, #[trigger] l[x]) >= entry_cmp(
        key,
        c,
    ) by {
        assert(s[x] == l[x]);
    }
    assert forall|x: int| 0 <= x < t.len() implies entry_cmp(key, #[trigger] t[x]) <= entry_cmp(
        key,
        c,
    ) by {
        assert(s[l.len() + 1 + x] == t[x]);
    }
}

proof fn lemma_leaf_matches_equal(cells: Seq<CellModel>, key: Seq<u8>)
    requires
        forall|j: int| 0 <= j < cells.len() ==> (#[trigger] cells[j]) is IndexLeaf,
    ensures
        leaf_matches(cells, key) == equal_ids(cells, key),
    decreases cells.len(),
{
    if cells.len() > 0 {
        let d = cells.drop_last();
        assert forall|j: int| 0 <= j < d.len() implies (#[trigger] d[j]) is IndexLeaf by {
            assert(d[j] == cells[j]);
        }
        lemma_leaf_matches_equal(d, key);
        assert(cells.last() is IndexLeaf);
    }
}

impl<'a> SqliteReader<'a> {
    proof fn lemma_search_complete(&self, page: int, key: Seq<u8>, fuel: nat)
        requires
            self.spec_search(page, key, fuel) is Ok,
            self.spec_index_entries(page, fuel) is Ok,
            ordered_for(self.spec_index_entries(page, fuel)->Ok_0, key),
            self.no_right_dups(page, key, fuel),
        ensures
            self.spec_search(page, key, fuel)->Ok_0 == equal_ids(
                self.spec_index_entries(page, fuel)->Ok_0,
                key,
            ),
        decreases fuel, 0int,
    {
        let p = self.spec_page_at(page)->Ok_0;
        self.lemma_page_fits(page);
        if p.header.page_type == BTreePageType::LeafIndex {
            assert forall|j: int| 0 <= j < p.cells.len() implies (#[trigger] p.cells[j]) is IndexLeaf by {
                assert(crate::page::cell_fits(p.header.page_type, p.cells[j]));
            }
            lemma_leaf_matches_equal(p.cells, key);
        } else {
            let f = (fuel - 1) as nat;
            let right = p.header.rightmost_pointer->Some_0 as int;
            let ces = self.spec_index_entries_cells(p.cells, 0, f)->Ok_0;
            let res = self.spec_index_entries(right, f)->Ok_0;
            let (cids, d) = self.spec_search_cells(p.cells, key, 0, f)->Ok_0;
            assert(self.spec_index_entries(page, fuel)->Ok_0 == ces + res);
            lemma_ordered_sub(ces + res, key, 0, ces.len() as int);
            assert((ces + res).subrange(0, ces.len() as int) =~= ces);
            lemma_ordered_sub(ces + res, key, ces.len() as int, (ces + res).len() as int);
            assert((ces + res).subrange(ces.len() as int, (ces + res).len() as int) =~= res);
            self.lemma_search_cells_complete(p.cells, key, 0, f, res);
            lemma_equal_ids_concat(ces, res, key);
            if d {
                assert(equal_ids(res, key) =~= Seq::<i64>::empty());
                assert(cids + Seq::<i64>::empty() =~= cids);
            } else {
                self.lemma_search_complete(right, key, f);
                assert(Seq::<i64>::empty() + equal_ids(res, key) =~= equal_ids(res, key));
            }
        }
    }

    proof fn lemma_search_cells_complete(
        &self,
        cells: Seq<CellModel>,
        key: Seq<u8>,
        i: int,
        fuel: nat,
        rest: Seq<CellModel>,
    )
        requires
            0 <= i,
            self.spec_search_cells(cells, key, i, fuel) is Ok,
            self.spec_index_entries_cells(cells, i, fuel) is Ok,
            ordered_for(self.spec_index_entries_cells(cells, i, fuel)->Ok_0 + rest, key),
            self.no_right_dups_cells(cells, key, i, fuel),
            cells.len() > 0 && entry_cmp(key, cells.last()) == 0 ==> equal_ids(rest, key)
                == Seq::<i64>::empty(),
        ensures
            ({
                let (ids, d) = self.spec_search_cells(cells, key, i, fuel)->Ok_0;
                let es = self.spec_index_entries_cells(cells, i, fuel)->Ok_0;
                &&& ids == equal_ids(es, key)
                &&& d ==> equal_ids(rest, key) == Seq::<i64>::empty()
                &&& !d ==> (forall|x: int| 0 <= x < es.len() ==> entry_cmp(key, #[trigger] es[x]) > 0)
                &&& !d && i < cells.len() ==> entry_cmp(key, cells[i]) > 0
            }),
        decreases fuel, cells.len() - i,
    {
        let es = self.spec_index_entries_cells(cells, i, fuel)->Ok_0;
        if i >= cells.len() {
            assert(equal_ids(es, key) =~= Seq::<i64>::empty());
        } else if let CellModel::IndexInterior { left_child, key: ck, row_id } = cells[i] {
            let c = cells[i];
            let les = self.spec_index_entries(left_child as int, fuel)->Ok_0;
            let e1 = self.spec_index_entries_cells(cells, i + 1, fuel)->Ok_0;
            assert(es == les.push(c) + e1);
            assert(es + rest =~= les.push(c) + (e1 + rest));
            lemma_split_order(les, c, e1 + rest, key);
            lemma_ordered_sub(e1 + rest, key, 0, e1.len() as int);
            assert((e1 + rest).subrange(0, e1.len() as int) =~= e1);
            lemma_ordered_sub(e1 + rest, key, e1.len() as int, (e1 + rest).len() as int);
            assert((e1 + rest).subrange(e1.len() as int, (e1 + rest).len() as int) =~= rest);
            lemma_equal_ids_concat(les.push(c), e1, key);
            assert(les.push(c) =~= les + seq![c]);
            lemma_equal_ids_concat(les, seq![c], key);
            assert(seq![c].drop_last() =~= Seq::<CellModel>::empty());
            assert(seq![c].last() == c);
            assert(equal_ids(Seq::<CellModel>::empty(), key) =~= Seq::<i64>::empty());
            assert(equal_ids(seq![c], key) == if key_cmp(key, ck) == 0 {
                Seq::<i64>::empty().push(row_id)
            } else {
                Seq::<i64>::empty()
            });
            assert forall|x: int| 0 <= x < e1.len() implies entry_cmp(key, #[trigger] e1[x])
                <= entry_cmp(key, c) by {
                assert((e1 + rest)[x] == e1[x]);
            }
            assert forall|x: int| 0 <= x < rest.len() implies entry_cmp(key, #[trigger] rest[x])
                <= entry_cmp(key, c) by {
                assert((e1 + rest)[e1.len() + x] == rest[x]);
            }
            if key_cmp(key, ck) < 0 {
                self.lemma_search_complete(left_child as int, key, fuel);
                lemma_equal_ids_none(e1, key);
                lemma_equal_ids_none(rest, key);
                assert(equal_ids(seq![c], key) =~= Seq::<i64>::empty());
                assert(equal_ids(les, key) + Seq::<i64>::empty() + Seq::<i64>::empty() =~= equal_ids(
                    les,
                    key,
                ));
            } else if key_cmp(key, ck) == 0 {
                self.lemma_search_complete(left_child as int, key, fuel);
                self.lemma_search_cells_complete(cells, key, i + 1, fuel, rest);
                let (rids, d2) = self.spec_search_cells(cells, key, i + 1, fuel)->Ok_0;
                assert(equal_ids(seq![c], key) =~= seq![row_id]);
                assert(equal_ids(les, key).push(row_id) + rids =~= equal_ids(les, key) + seq![row_id]
                    + rids);
                if !d2 && i + 1 < cells.len() {
                    if let CellModel::IndexInterior { left_child: l2, .. } = cells[i + 1] {
                        let les2 = self.spec_index_entries(l2 as int, fuel)->Ok_0;
                        let e2 = self.spec_index_entries_cells(cells, i + 2, fuel)->Ok_0;
                        assert(e1 == les2.push(cells[i + 1]) + e2);
                        assert(e1[les2.len() as int] == cells[i + 1]);
                    }
                }
                if !d2 {
                    assert(i + 1 >= cells.len());
                    assert(cells.last() == cells[i]);
                }
            } else {
                self.lemma_search_cells_complete(cells, key, i + 1, fuel, rest);
                lemma_equal_ids_none(les, key);
                assert(equal_ids(seq![c], key) =~= Seq::<i64>::empty());
                assert(Seq::<i64>::empty() + Seq::<i64>::empty() + equal_ids(e1, key) =~= equal_ids(
                    e1,
                    key,
                ));
                assert forall|x: int| 0 <= x < es.len() implies #[trigger] entry_cmp(key, es[x]) > 0
                    || self.spec_search_cells(cells, key, i, fuel)->Ok_0.1 by {
                    if x < les.len() {
                        assert(es[x] == les[x]);
                    } else if x == les.len() {
                        assert(es[x] == c);
                    } else {
                        assert(es[x] == e1[x - les.len() - 1]);
                    }
                }
            }
        }
    }
}

/// Where the index is in byte-wise key order, the descent finds exactly the
/// entries of the index whose key equals the search key, in index order, as
/// an exhaustive scan of the index would. Left out are trees with an interior
/// page whose last cell's key equals the search key while its right-most
/// subtree holds that key too: the descent takes the right-most child only
/// when it went down no left child, so it misses those.
pub proof fn law_index_descent_complete(rd: &SqliteReader, root: int, key: Seq<u8>)
    requires
        rd.spec_search(root, key, rd.depth_budget()) is Ok,
        rd.spec_index_entries(root, rd.depth_budget()) is Ok,
        ordered_for(rd.spec_index_entries(root, rd.depth_budget())->Ok_0, key),
        rd.no_right_dups(root, key, rd.depth_budget()),
    ensures
        rd.spec_search(root, key, rd.depth_budget())->Ok_0 == equal_ids(
            rd.spec_index_entries(root, rd.depth_budget())->Ok_0,
            key,
        ),
{
    rd.lemma_search_complete(root, key, rd.depth_budget());
}

} // verus!
