//! B-tree pages: the page header, the cell-pointer array and the cells.
use crate::cell::{
    spec_index_interior, spec_index_leaf, spec_table_interior, spec_table_leaf, CellModel,
    DatabaseCell, IndexLeafCell, InteriorIndexCell, InteriorTableCell, LeafCell,
};
use crate::codec::{be_unsigned, lemma_pow_values, read_be_unsigned};
use crate::error::SqliteError;
use vstd::prelude::*;

verus! {

/// The size of the database header that opens page 1.
pub const HEADER_SIZE: usize = 100;

/// The four kinds of B-tree page.
#[derive(Debug, Clone, Copy, PartialEq, Eq, Structural)]
pub enum BTreePageType {
    InteriorIndex,
    InteriorTable,
    LeafIndex,
    LeafTable,
}

/// The kind of page that the flag byte `b` names.
pub open spec fn spec_page_type(b: u8) -> Option<BTreePageType> {
    if b == 2 {
        Some(BTreePageType::InteriorIndex)
    } else if b == 5 {
        Some(BTreePageType::InteriorTable)
    } else if b == 10 {
        Some(BTreePageType::LeafIndex)
    } else if b == 13 {
        Some(BTreePageType::LeafTable)
    } else {
        None
    }
}

impl BTreePageType {
    /// The kind of page that the flag byte `value` names.
    pub fn from_flag(value: u8) -> (r: Option<BTreePageType>)
        ensures
            r == spec_page_type(value),
    {
        if value == 2 {
            Some(BTreePageType::InteriorIndex)
        } else if value == 5 {
            Some(BTreePageType::InteriorTable)
        } else if value == 10 {
            Some(BTreePageType::LeafIndex)
        } else if value == 13 {
            Some(BTreePageType::LeafTable)
        } else {
            None
        }
    }

    pub open spec fn spec_is_interior(self) -> bool {
        self == BTreePageType::InteriorIndex || self == BTreePageType::InteriorTable
    }

    /// The length of the B-tree header of a page of this kind.
    pub open spec fn spec_header_len(self) -> int {
        if self.spec_is_interior() {
            12
        } else {
            8
        }
    }

    /// A name for this kind of page.
    pub fn describe(&self) -> (r: &'static str) {
        match self {
            BTreePageType::InteriorIndex => "Interior Index Page",
            BTreePageType::InteriorTable => "Interior Table Page",
            BTreePageType::LeafIndex => "Index Leaf Page",
            BTreePageType::LeafTable => "Table Leaf Page",
        }
    }
}

/// The B-tree header of a page.
#[derive(Debug, Clone, Copy)]
pub struct BTreePageHeader {
    pub page_type: BTreePageType,
    pub first_freeblock_offset: u16,
    pub total_cells: u16,
    /// Where the cell content area starts, from the start of the page; a
    /// stored 0 stands for 65536.
    pub cell_content_offset: u32,
    pub fragmented_free_bytes: u8,
    /// The right-most child, on interior pages only.
    pub rightmost_pointer: Option<u32>,
}

/// Where the B-tree header starts on page `page_no`.
pub open spec fn header_start(page_no: int) -> int {
    if page_no == 1 {
        HEADER_SIZE as int
    } else {
        0
    }
}

/// The big-endian integer of `n` bytes at `pos` of `b`.
pub open spec fn be_at(b: Seq<u8>, pos: int, n: int) -> nat {
    be_unsigned(b.subrange(pos, pos + n))
}

/// The header of page `page_no` whose bytes are `b`.
pub open spec fn spec_page_header(b: Seq<u8>, page_no: int) -> Result<BTreePageHeader, SqliteError> {
    let h = header_start(page_no);
    if b.len() < h + 1 {
        Err(SqliteError::DecodeTruncated)
    } else if spec_page_type(b[h]) is None {
        Err(SqliteError::DecodeRecord)
    } else if b.len() < h + spec_page_type(b[h])->Some_0.spec_header_len() {
        Err(SqliteError::DecodeTruncated)
    } else {
        let t = spec_page_type(b[h])->Some_0;
        Ok(
            BTreePageHeader {
                page_type: t,
                first_freeblock_offset: be_at(b, h + 1, 2) as u16,
                total_cells: be_at(b, h + 3, 2) as u16,
                cell_content_offset: if be_at(b, h + 5, 2) == 0 {
                    65536
                } else {
                    be_at(b, h + 5, 2) as u32
                },
                fragmented_free_bytes: b[h + 7],
                rightmost_pointer: if t.spec_is_interior() {
                    Some(be_at(b, h + 8, 4) as u32)
                } else {
                    None
                },
            },
        )
    }
}

/// The cell of a page of kind `t` whose bytes start at `off` of `b`.
#[verifier::opaque]
pub open spec fn spec_cell(t: BTreePageType, b: Seq<u8>, off: int, usable: int) -> Result<
    CellModel,
    SqliteError,
> {
    let c = b.subrange(off, b.len() as int);
    match t {
        BTreePageType::LeafTable => spec_table_leaf(c, usable),
        BTreePageType::InteriorTable => spec_table_interior(c),
        BTreePageType::LeafIndex => spec_index_leaf(c, usable),
        BTreePageType::InteriorIndex => spec_index_interior(c, usable),
    }
}

/// The cells from the `i`-th on of a page of kind `t` whose `n` cell pointers
/// start at `ptrs`.
pub open spec fn spec_cells(
    t: BTreePageType,
    b: Seq<u8>,
    ptrs: int,
    n: int,
    i: int,
    usable: int,
) -> Result<Seq<CellModel>, SqliteError>
    decreases n - i,
{
    if i >= n || i < 0 {
        Ok(Seq::empty())
    } else if be_at(b, ptrs + 2 * i, 2) >= b.len() {
        Err(SqliteError::DecodeRecord)
    } else {
        match spec_cell(t, b, be_at(b, ptrs + 2 * i, 2) as int, usable) {
            Err(e) => Err(e),
            Ok(c) => match spec_cells(t, b, ptrs, n, i + 1, usable) {
                Ok(rest) => Ok(seq![c] + rest),
                Err(e) => Err(e),
            },
        }
    }
}

/// A decoded page: its header and its cells in key order.
pub struct PageModel {
    pub header: BTreePageHeader,
    pub cells: Seq<CellModel>,
}

/// Page `page_no`, whose bytes are `b` and whose usable size is `usable`.
#[verifier::opaque]
pub open spec fn spec_page(b: Seq<u8>, page_no: int, usable: int) -> Result<PageModel, SqliteError> {
    match spec_page_header(b, page_no) {
        Err(e) => Err(e),
        Ok(hd) => {
            let ptrs = header_start(page_no) + hd.page_type.spec_header_len();
            if b.len() < ptrs + 2 * hd.total_cells {
                Err(SqliteError::DecodeTruncated)
            } else {
                match spec_cells(hd.page_type, b, ptrs, hd.total_cells as int, 0, usable) {
                    Ok(cells) => Ok(PageModel { header: hd, cells }),
                    Err(e) => Err(e),
                }
            }
        },
    }
}

pub open spec fn cells_view(c: Seq<DatabaseCell>) -> Seq<CellModel> {
    c.map_values(|x: DatabaseCell| x@)
}

/// A decoded B-tree page.
#[derive(Debug)]
pub struct BTreePage {
    pub page_no: usize,
    pub header: BTreePageHeader,
    pub cells: Vec<DatabaseCell>,
}

impl View for BTreePage {
    type V = PageModel;

    open spec fn view(&self) -> PageModel {
        PageModel { header: self.header, cells: cells_view(self.cells@) }
    }
}

/// Decodes the cell of a page of kind `t` that starts at `off` of `buf`.
fn decode_cell(t: BTreePageType, buf: &[u8], off: usize, usable: usize) -> (r: Result<
    DatabaseCell,
    SqliteError,
>)
    requires
        off <= buf@.len(),
    ensures
        match r {
            Ok(c) => spec_cell(t, buf@, off as int, usable as int) == Ok::<CellModel, SqliteError>(c@),
            Err(e) => spec_cell(t, buf@, off as int, usable as int) == Err::<CellModel, SqliteError>(e),
        },
{
    reveal(spec_cell);
    let c = &buf[off..buf.len()];
    match t {
        BTreePageType::LeafTable => match LeafCell::new(c, usable) {
            Ok(x) => Ok(DatabaseCell::LeafCell(x)),
            Err(e) => Err(e),
        },
        BTreePageType::InteriorTable => match InteriorTableCell::new(c) {
            Ok(x) => Ok(DatabaseCell::InteriorTableCell(x)),
            Err(e) => Err(e),
        },
        BTreePageType::LeafIndex => match IndexLeafCell::new(c, usable) {
            Ok(x) => Ok(DatabaseCell::IndexLeafCell(x)),
            Err(e) => Err(e),
        },
        BTreePageType::InteriorIndex => match InteriorIndexCell::new(c, usable) {
            Ok(x) => Ok(DatabaseCell::InteriorIndexCell(x)),
            Err(e) => Err(e),
        },
    }
}

impl BTreePage {
    /// Decodes page `page_no` from `buf`, which holds the whole page (on page 1
    /// the database header too); `usable` is the page size less the reserved
    /// bytes at the end of each page.
    pub fn new(buf: &[u8], page_no: usize, usable: usize) -> (r: Result<BTreePage, SqliteError>)
        ensures
            match r {
                Ok(p) => spec_page(buf@, page_no as int, usable as int) == Ok::<
                    PageModel,
                    SqliteError,
                >(p@) && p.page_no == page_no,
                Err(e) => spec_page(buf@, page_no as int, usable as int) == Err::<
                    PageModel,
                    SqliteError,
                >(e),
            },
    {
        reveal(spec_page);
        let len = buf.len();
        let h: usize = if page_no == 1 {
            HEADER_SIZE
        } else {
            0
        };
        if len < h + 1 {
            return Err(SqliteError::DecodeTruncated);
        }
        let page_type = match BTreePageType::from_flag(buf[h]) {
            Some(t) => t,
            None => {
                return Err(SqliteError::DecodeRecord);
            },
        };
        let hl: usize = match page_type {
            BTreePageType::InteriorIndex | BTreePageType::InteriorTable => 12,
            _ => 8,
        };
        if len < h + hl {
            return Err(SqliteError::DecodeTruncated);
        }
        proof {
            lemma_pow_values();
        }
        let content = read_be_unsigned(buf, h + 5, 2);
        let header = BTreePageHeader {
            page_type,
            first_freeblock_offset: read_be_unsigned(buf, h + 1, 2) as u16,
            total_cells: read_be_unsigned(buf, h + 3, 2) as u16,
            cell_content_offset: if content == 0 {
                65536
            } else {
                content as u32
            },
            fragmented_free_bytes: buf[h + 7],
            rightmost_pointer: if hl == 12 {
                Some(read_be_unsigned(buf, h + 8, 4) as u32)
            } else {
                None
            },
        };
        assert(spec_page_header(buf@, page_no as int) == Ok::<BTreePageHeader, SqliteError>(header));
        let n = header.total_cells as usize;
        let ptrs = h + hl;
        if len < ptrs + 2 * n {
            return Err(SqliteError::DecodeTruncated);
        }
        let mut cells: Vec<DatabaseCell> = Vec::new();
        let mut i: usize = 0;
        while i < n
            invariant
                len == buf@.len(),
                spec_page_header(buf@, page_no as int) == Ok::<BTreePageHeader, SqliteError>(header),
                page_type == header.page_type,
                n == header.total_cells,
                ptrs + 2 * n <= len,
                ptrs == header_start(page_no as int) + page_type.spec_header_len(),
                i <= n,
                spec_cells(page_type, buf@, ptrs as int, n as int, 0, usable as int) == crate::cell::prepend(
                    cells_view(cells@),
                    spec_cells(page_type, buf@, ptrs as int, n as int, i as int, usable as int),
                ),
            decreases n - i,
        {
            proof {
                lemma_pow_values();
                reveal(spec_page);
            }
            let off = read_be_unsigned(buf, ptrs + 2 * i, 2) as usize;
            if off >= len {
                return Err(SqliteError::DecodeRecord);
            }
            let c = match decode_cell(page_type, buf, off, usable) {
                Ok(c) => c,
                Err(e) => {
                    return Err(e);
                },
            };
            proof {
                let rest = spec_cells(page_type, buf@, ptrs as int, n as int, i + 1, usable as int);
                if let Ok(r) = rest {
                    assert(cells_view(cells@) + (seq![c@] + r) =~= cells_view(cells@.push(c)) + r);
                }
                assert(cells_view(cells@.push(c)) =~= cells_view(cells@).push(c@));
            }
            cells.push(c);
            i = i + 1;
        }
        assert(cells_view(cells@) + Seq::<CellModel>::empty() =~= cells_view(cells@));
        Ok(BTreePage { page_no, header, cells })
    }

    pub fn page_type(&self) -> (r: BTreePageType)
        ensures
            r == self.header.page_type,
    {
        self.header.page_type
    }

    pub fn right_page_pointer(&self) -> (r: Option<u32>)
        ensures
            r == self.header.rightmost_pointer,
    {
        self.header.rightmost_pointer
    }

    /// The number of cells on the page.
    pub fn count(&self) -> (r: usize)
        ensures
            r == self@.cells.len(),
    {
        self.cells.len()
    }
}

/// A cell of the kind that pages of kind `t` hold.
pub open spec fn cell_fits(t: BTreePageType, c: CellModel) -> bool {
    match t {
        BTreePageType::LeafTable => c is TableLeaf,
        BTreePageType::InteriorTable => c is TableInterior,
        BTreePageType::LeafIndex => c is IndexLeaf,
        BTreePageType::InteriorIndex => c is IndexInterior,
    }
}

proof fn lemma_cells_fit(t: BTreePageType, b: Seq<u8>, ptrs: int, n: int, i: int, usable: int)
    requires
        spec_cells(t, b, ptrs, n, i, usable) is Ok,
    ensures
        forall|j: int|
            0 <= j < spec_cells(t, b, ptrs, n, i, usable)->Ok_0.len() ==> cell_fits(
                t,
                #[trigger] spec_cells(t, b, ptrs, n, i, usable)->Ok_0[j],
            ),
    decreases n - i,
{
    reveal(spec_cell);
    if 0 <= i < n {
        lemma_cells_fit(t, b, ptrs, n, i + 1, usable);
        let rest = spec_cells(t, b, ptrs, n, i + 1, usable)->Ok_0;
        let all = spec_cells(t, b, ptrs, n, i, usable)->Ok_0;
        assert forall|j: int| 0 <= j < all.len() implies cell_fits(t, #[trigger] all[j]) by {
            if j > 0 {
                assert(all[j] == rest[j - 1]);
            }
        }
    }
}

/// Every cell of a decoded page is of the kind its header names.
pub proof fn lemma_page_cells_fit(b: Seq<u8>, page_no: int, usable: int)
    requires
        spec_page(b, page_no, usable) is Ok,
    ensures
        forall|j: int|
            0 <= j < spec_page(b, page_no, usable)->Ok_0.cells.len() ==> cell_fits(
                spec_page(b, page_no, usable)->Ok_0.header.page_type,
                #[trigger] spec_page(b, page_no, usable)->Ok_0.cells[j],
            ),
        spec_page(b, page_no, usable)->Ok_0.header.page_type.spec_is_interior()
            ==> spec_page(b, page_no, usable)->Ok_0.header.rightmost_pointer is Some,
{
    reveal(spec_page);
    let hd = spec_page_header(b, page_no)->Ok_0;
    let ptrs = header_start(page_no) + hd.page_type.spec_header_len();
    lemma_cells_fit(hd.page_type, b, ptrs, hd.total_cells as int, 0, usable);
}

} // verus!
