//! B-tree pages: the page header, the slot array, and the cells.
//!
//! A page starts with a header — type byte, first-freeblock offset, cell
//! count, cell-content offset (0 stands for 65536), fragmented free byte
//! count, and, on interior pages only, a rightmost child pointer — followed
//! by an array of big-endian 16-bit slot offsets, one per cell.  Cells are
//! packed from the high end of the page; every cell must lie wholly inside
//! `[cell_content_offset, usable_page_size)` and no two cells may overlap.
//! On the first page of the file the header begins at offset 100.

use crate::bytes::be_uint;
use crate::bytes::read_be_uint;
use crate::cell::cell_matches;
use crate::cell::spec_cell;
use crate::cell::Cell;
use crate::cell::CellV;
use crate::error::DbError;
use vstd::prelude::*;

verus! {

/// The page classes of the format.  Only the four B-tree classes are
/// decoded; the others are recognized type codes that this reader does not
/// process.
#[derive(Debug, Clone, Copy, PartialEq, Eq, Structural)]
pub enum PageType {
    /// The lock-byte page.
    LockByte,
    /// A freelist page.
    Freelist(FreelistPageType),
    /// A b-tree page.
    BTree(BTreePageType),
    /// A payload overflow page.
    PayloadOverflow,
    /// A pointer map page.
    PointerMap,
}

#[derive(Debug, Clone, Copy, PartialEq, Eq, Structural)]
pub enum FreelistPageType {
    /// A freelist trunk page.
    Trunk,
    /// A freelist leaf page.
    Leaf,
}

#[derive(Debug, Clone, Copy, PartialEq, Eq, Structural)]
pub enum BTreePageType {
    /// A table b-tree interior page.
    TableInterior,
    /// A table b-tree leaf page.
    TableLeaf,
    /// An index b-tree interior page.
    IndexInterior,
    /// An index b-tree leaf page.
    IndexLeaf,
}

/// The B-tree class named by a page-header type byte: 0x02, 0x05, 0x0a and
/// 0x0d; every other byte is an error.
pub open spec fn spec_page_type(b: u8) -> Result<BTreePageType, DbError> {
    if b == 0x02 {
        Ok(BTreePageType::IndexInterior)
    } else if b == 0x05 {
        Ok(BTreePageType::TableInterior)
    } else if b == 0x0a {
        Ok(BTreePageType::IndexLeaf)
    } else if b == 0x0d {
        Ok(BTreePageType::TableLeaf)
    } else {
        Err(DbError::MalformedPage)
    }
}

impl PageType {
    /// Recognize a page-header type byte.
    pub fn from_byte(b: u8) -> (r: Result<PageType, DbError>)
        ensures
            match spec_page_type(b) {
                Ok(t) => r == Ok::<PageType, DbError>(PageType::BTree(t)),
                Err(e) => r == Err::<PageType, DbError>(e),
            },
    {
        if b == 0x02 {
            Ok(PageType::BTree(BTreePageType::IndexInterior))
        } else if b == 0x05 {
            Ok(PageType::BTree(BTreePageType::TableInterior))
        } else if b == 0x0a {
            Ok(PageType::BTree(BTreePageType::IndexLeaf))
        } else if b == 0x0d {
            Ok(PageType::BTree(BTreePageType::TableLeaf))
        } else {
            Err(DbError::MalformedPage)
        }
    }
}

/// Is this class an interior page, which carries a rightmost pointer?
pub open spec fn spec_is_interior(ty: BTreePageType) -> bool {
    ty == BTreePageType::TableInterior || ty == BTreePageType::IndexInterior
}

/// The model of one decoded page.
pub struct PageV {
    pub ty: BTreePageType,
    pub cells: Seq<CellV>,
    pub rightmost: Option<u32>,
}

/// The slot offsets: `count` big-endian 16-bit values from `base`.
pub open spec fn spec_slots(s: Seq<u8>, base: int, count: int) -> Seq<int> {
    Seq::new(count as nat, |i: int| be_uint(s, base + 2 * i, 2))
}

/// The cells at the listed slot offsets, each with its consumed byte count.
pub open spec fn spec_cells_at(
    s: Seq<u8>,
    slots: Seq<int>,
    ty: BTreePageType,
    usable: int,
    ncols: int,
) -> Result<Seq<(CellV, int)>, DbError>
    decreases slots.len(),
{
    if slots.len() == 0 {
        Ok(Seq::empty())
    } else {
        match spec_cell(s, slots[0], ty, usable, ncols) {
            Err(e) => Err(e),
            Ok((cv, c)) => match spec_cells_at(s, slots.drop_first(), ty, usable, ncols) {
                Err(e) => Err(e),
                Ok(rest) => Ok(seq![(cv, c)] + rest),
            },
        }
    }
}

/// Every cell lies wholly inside `[lo, hi)`.
pub open spec fn cells_within(slots: Seq<int>, cells: Seq<(CellV, int)>, lo: int, hi: int) -> bool {
    forall|i: int|
        0 <= i < slots.len() ==> lo <= #[trigger] slots[i] && slots[i] + cells[i].1 <= hi
}

/// No two cells overlap.
pub open spec fn cells_disjoint(slots: Seq<int>, cells: Seq<(CellV, int)>) -> bool {
    forall|i: int, j: int|
        0 <= i < j < slots.len() ==> #[trigger] slots[i] + cells[i].1 <= #[trigger] slots[j]
            || slots[j] + cells[j].1 <= slots[i]
}

/// One decoded page: header, slot array and cells, in slot order.  `s` is
/// the page's own bytes; on the first page the header sits at offset 100.
pub open spec fn spec_page(s: Seq<u8>, first: bool, usable: int, ncols: int) -> Result<
    PageV,
    DbError,
> {
    let off: int = if first {
        100
    } else {
        0
    };
    if s.len() < off + 8 {
        Err(DbError::MalformedPage)
    } else {
        match spec_page_type(s[off]) {
            Err(e) => Err(e),
            Ok(ty) => {
                let cc = be_uint(s, off + 3, 2);
                let content0 = be_uint(s, off + 5, 2);
                let content: int = if content0 == 0 {
                    65536
                } else {
                    content0
                };
                let hdr: int = if spec_is_interior(ty) {
                    12
                } else {
                    8
                };
                let slots_base = off + hdr;
                if slots_base + 2 * cc > s.len() {
                    Err(DbError::MalformedPage)
                } else {
                    let slots = spec_slots(s, slots_base, cc);
                    match spec_cells_at(s, slots, ty, usable, ncols) {
                        Err(e) => Err(e),
                        Ok(cells) => {
                            if !cells_within(slots, cells, content, usable) {
                                Err(DbError::MalformedPage)
                            } else if !cells_disjoint(slots, cells) {
                                Err(DbError::MalformedPage)
                            } else {
                                Ok(
                                    PageV {
                                        ty,
                                        cells: cells.map(|i: int, p: (CellV, int)| p.0),
                                        rightmost: if spec_is_interior(ty) {
                                            Some(be_uint(s, off + 8, 4) as u32)
                                        } else {
                                            None
                                        },
                                    },
                                )
                            }
                        },
                    }
                }
            },
        }
    }
}


/// One decoded page: its class, its cells in slot order, and, on interior
/// pages, the rightmost child pointer.
#[derive(Debug)]
pub struct Page {
    pub ty: PageType,
    pub cells: Vec<Cell>,
    pub rightmost_pointer: Option<u32>,
}

/// Decode the cells at the listed slot offsets, in slot order, returning
/// each cell and its byte count.
#[verifier::rlimit(100)]
fn parse_cells(
    input: &[u8],
    slots: &Vec<usize>,
    ty: BTreePageType,
    usable_page_size: usize,
    column_names: &Vec<String>,
    ipk: Option<usize>,
) -> (r: Result<(Vec<Cell>, Vec<usize>), DbError>)
    ensures
        ({
            let sl = slots@.map(|i, v: usize| v as int);
            let names = column_names@.map(|i, n: String| n@);
            let ipk_i = match ipk {
                Some(i) => Some(i as int),
                None => None,
            };
            match r {
                Ok((cells, sizes)) => match spec_cells_at(
                    input@,
                    sl,
                    ty,
                    usable_page_size as int,
                    column_names@.len() as int,
                ) {
                    Ok(cvs) => {
                        &&& cells@.len() == cvs.len()
                        &&& sizes@.len() == cvs.len()
                        &&& cvs.len() == slots@.len()
                        &&& forall|j: int|
                            0 <= j < cvs.len() ==> cell_matches(
                                #[trigger] cells@[j],
                                cvs[j].0,
                                names,
                                ipk_i,
                            )
                        &&& forall|j: int| 0 <= j < cvs.len() ==> #[trigger] sizes@[j] as int == cvs[j].1
                        &&& forall|j: int|
                            0 <= j < cvs.len() ==> slots@[j] + #[trigger] sizes@[j] <= input@.len()
                    },
                    Err(_) => false,
                },
                Err(e) => spec_cells_at(
                    input@,
                    sl,
                    ty,
                    usable_page_size as int,
                    column_names@.len() as int,
                ) matches Err(e2) && e == e2,
            }
        }),
{
    let ghost s = input@;
    let ghost ncols = column_names@.len() as int;
    let ghost names = column_names@.map(|i, n: String| n@);
    let ghost ipk_i: Option<int> = match ipk {
        Some(i) => Some(i as int),
        None => None,
    };
    let ghost sl = slots@.map(|i, v: usize| v as int);
    let ghost usable = usable_page_size as int;
    let cc = slots.len();
    let mut cells: Vec<Cell> = Vec::new();
    let mut sizes: Vec<usize> = Vec::new();
    let ghost mut done: Seq<(CellV, int)> = Seq::empty();
    let mut k: usize = 0;
    proof {
        assert(sl.skip(0) =~= sl);
        match spec_cells_at(s, sl, ty, usable, ncols) {
            Ok(rest) => {
                assert(Seq::<(CellV, int)>::empty() + rest =~= rest);
            },
            Err(_) => {},
        }
    }
    while k < cc
        invariant
            k <= cc,
            cc == slots@.len(),
            s == input@,
            usable == usable_page_size as int,
            ncols == column_names@.len() as int,
            names == column_names@.map(|i2, n: String| n@),
            ipk_i == (match ipk {
                Some(i2) => Some(i2 as int),
                None => None,
            }),
            sl == slots@.map(|i2, v: usize| v as int),
            cells@.len() == k,
            sizes@.len() == k,
            done.len() == k,
            forall|j: int|
                0 <= j < k ==> cell_matches(#[trigger] cells@[j], done[j].0, names, ipk_i),
            forall|j: int| 0 <= j < k ==> #[trigger] sizes@[j] as int == done[j].1,
            forall|j: int| 0 <= j < k ==> slots@[j] + #[trigger] sizes@[j] <= s.len(),
            match spec_cells_at(s, sl.skip(k as int), ty, usable, ncols) {
                Ok(rest) => spec_cells_at(s, sl, ty, usable, ncols) == Ok::<
                    Seq<(CellV, int)>,
                    DbError,
                >(done + rest),
                Err(e) => spec_cells_at(s, sl, ty, usable, ncols) matches Err(e2) && e == e2,
            },
        decreases cc - k,
    {
        proof {
            assert(sl.skip(k as int).len() == cc - k);
            assert(sl.skip(k as int)[0] == sl[k as int]);
            assert(sl[k as int] == slots@[k as int] as int);
            assert(sl.skip(k as int).drop_first() =~= sl.skip(k as int + 1));
        }
        let (cell, csize) = match Cell::parse(
            input,
            slots[k],
            ty,
            usable_page_size,
            column_names,
            ipk,
        ) {
            Ok(x) => x,
            Err(e) => {
                return Err(e);
            },
        };
        let ghost done_old = done;
        cells.push(cell);
        sizes.push(csize);
        proof {
            match spec_cell(s, sl[k as int], ty, usable, ncols) {
                Ok((cv, c)) => {
                    done = done_old.push((cv, c));
                    match spec_cells_at(s, sl.skip(k as int + 1), ty, usable, ncols) {
                        Ok(rest) => {
                            assert(spec_cells_at(s, sl.skip(k as int), ty, usable, ncols) == Ok::<
                                Seq<(CellV, int)>,
                                DbError,
                            >(seq![(cv, c)] + rest));
                            assert(done_old + (seq![(cv, c)] + rest) =~= done + rest);
                        },
                        Err(_) => {},
                    }
                },
                Err(_) => {
                    assert(false);
                },
            }
        }
        k = k + 1;
    }
    proof {
        assert(sl.skip(cc as int) =~= Seq::<int>::empty());
        assert(done + Seq::<(CellV, int)>::empty() =~= done);
    }
    Ok((cells, sizes))
}

impl Page {
    /// Decode one page from its bytes.  `input` is the whole page; when
    /// `is_first_page` the header sits at offset 100.  Cells come back in
    /// slot order; a cell outside `[cell_content_offset, usable)` or two
    /// overlapping cells make the page malformed.
    #[verifier::rlimit(100)]
    pub fn parse(
        input: &[u8],
        is_first_page: bool,
        column_names: &Vec<String>,
        usable_page_size: usize,
        ipk: Option<usize>,
    ) -> (r: Result<Page, DbError>)
        ensures
            ({
                let names = column_names@.map(|i, n: String| n@);
                let ipk_i = match ipk {
                    Some(i) => Some(i as int),
                    None => None,
                };
                match r {
                    Ok(page) => match spec_page(
                        input@,
                        is_first_page,
                        usable_page_size as int,
                        column_names@.len() as int,
                    ) {
                        Ok(pv) => {
                            &&& page.ty == PageType::BTree(pv.ty)
                            &&& page.rightmost_pointer == pv.rightmost
                            &&& page.cells@.len() == pv.cells.len()
                            &&& forall|i: int|
                                0 <= i < pv.cells.len() ==> cell_matches(
                                    #[trigger] page.cells@[i],
                                    pv.cells[i],
                                    names,
                                    ipk_i,
                                )
                        },
                        Err(_) => false,
                    },
                    Err(e) => spec_page(
                        input@,
                        is_first_page,
                        usable_page_size as int,
                        column_names@.len() as int,
                    ) matches Err(e2) && e == e2,
                }
            }),
    {
        let ghost s = input@;
        let ghost ncols = column_names@.len() as int;
        let n0 = input.len();
        let off: usize = if is_first_page {
            100
        } else {
            0
        };
        if n0 < off + 8 {
            return Err(DbError::MalformedPage);
        }
        let bty = match PageType::from_byte(input[off]) {
            Ok(PageType::BTree(t)) => t,
            Ok(_) => {
                proof {
                    assert(false);
                }
                return Err(DbError::MalformedPage);
            },
            Err(e) => {
                return Err(e);
            },
        };
        proof {
            vstd::arithmetic::power2::lemma2_to64();
            crate::bytes::lemma_be_uint_bound(s, off as int + 3, 2);
            crate::bytes::lemma_be_uint_bound(s, off as int + 5, 2);
        }
        let cc = read_be_uint(input, off + 3, 2) as usize;
        let content0 = read_be_uint(input, off + 5, 2) as usize;
        let content: usize = if content0 == 0 {
            65536
        } else {
            content0
        };
        let interior = match bty {
            BTreePageType::TableInterior => true,
            BTreePageType::IndexInterior => true,
            _ => false,
        };
        assert(interior == spec_is_interior(bty));
        let hdr: usize = if interior {
            12
        } else {
            8
        };
        let slots_base = off + hdr;
        if slots_base > n0 || 2 * cc > n0 - slots_base {
            return Err(DbError::MalformedPage);
        }
        let rightmost: Option<u32> = if interior {
            proof {
                crate::bytes::lemma_be_uint_bound(s, off as int + 8, 4);
                vstd::arithmetic::power2::lemma2_to64();
            }
            Some(read_be_uint(input, off + 8, 4) as u32)
        } else {
            None
        };
        let ghost slots_spec = spec_slots(s, slots_base as int, cc as int);
        let mut slots: Vec<usize> = Vec::new();
        let mut i: usize = 0;
        while i < cc
            invariant
                i <= cc,
                n0 == s.len(),
                s == input@,
                slots_base + 2 * cc <= n0,
                slots@.len() == i,
                slots_spec == spec_slots(s, slots_base as int, cc as int),
                forall|j: int| 0 <= j < i ==> #[trigger] slots@[j] as int == slots_spec[j],
            decreases cc - i,
        {
            proof {
                crate::bytes::lemma_be_uint_bound(s, slots_base as int + 2 * (i as int), 2);
                vstd::arithmetic::power2::lemma2_to64();
            }
            let off_i = read_be_uint(input, slots_base + 2 * i, 2) as usize;
            slots.push(off_i);
            i = i + 1;
        }
        proof {
            assert(slots_spec =~= slots@.map(|i2, v: usize| v as int));
        }
        let ghost usable = usable_page_size as int;
        let (cells, sizes) = match parse_cells(
            input,
            &slots,
            bty,
            usable_page_size,
            column_names,
            ipk,
        ) {
            Ok(x) => x,
            Err(e) => {
                return Err(e);
            },
        };
        let ghost done: Seq<(CellV, int)> = match spec_cells_at(s, slots_spec, bty, usable, ncols) {
            Ok(cvs) => cvs,
            Err(_) => Seq::empty(),
        };
        // every cell wholly inside the content area
        let mut a: usize = 0;
        while a < cc
            invariant
                a <= cc,
                cc == slots@.len() == sizes@.len(),
                done.len() == cc,
                s == input@,
                n0 == s.len(),
                n0 >= off + 8,
                off as int == (if is_first_page { 100int } else { 0int }),
                spec_page_type(s[off as int]) == Ok::<BTreePageType, DbError>(bty),
                cc as int == be_uint(s, off as int + 3, 2),
                content0 as int == be_uint(s, off as int + 5, 2),
                slots_base as int == off as int + (if spec_is_interior(bty) { 12int } else { 8int }),
                slots_base + 2 * cc <= n0,
                slots_spec == spec_slots(s, slots_base as int, cc as int),
                spec_cells_at(s, slots_spec, bty, usable, ncols) == Ok::<Seq<(CellV, int)>, DbError>(done),
                usable == usable_page_size as int,
                ncols == column_names@.len() as int,
                content as int == (if content0 == 0 { 65536int } else { content0 as int }),
                forall|j: int| 0 <= j < cc ==> #[trigger] slots@[j] as int == slots_spec[j],
                forall|j: int| 0 <= j < cc ==> #[trigger] sizes@[j] as int == done[j].1,
                forall|j: int|
                    0 <= j < a ==> content <= #[trigger] slots_spec[j] && slots_spec[j] + done[j].1
                        <= usable,
            decreases cc - a,
        {
            if slots[a] < content || sizes[a] > usable_page_size || slots[a] > usable_page_size
                - sizes[a] {
                proof {
                    assert(slots_spec[a as int] == slots@[a as int] as int);
                    assert(done[a as int].1 == sizes@[a as int] as int);
                    assert(!(content as int <= slots_spec[a as int] && slots_spec[a as int]
                        + done[a as int].1 <= usable));
                    assert(!cells_within(slots_spec, done, content as int, usable));
                }
                return Err(DbError::MalformedPage);
            }
            proof {
                assert(slots_spec[a as int] == slots@[a as int] as int);
                assert(done[a as int].1 == sizes@[a as int] as int);
            }
            a = a + 1;
        }
        assert(cells_within(slots_spec, done, content as int, usable));
        // no two cells overlap
        let mut x: usize = 0;
        while x < cc
            invariant
                x <= cc,
                cc == slots@.len() == sizes@.len(),
                done.len() == cc,
                s == input@,
                n0 == s.len(),
                n0 >= off + 8,
                off as int == (if is_first_page { 100int } else { 0int }),
                spec_page_type(s[off as int]) == Ok::<BTreePageType, DbError>(bty),
                cc as int == be_uint(s, off as int + 3, 2),
                content0 as int == be_uint(s, off as int + 5, 2),
                slots_base as int == off as int + (if spec_is_interior(bty) { 12int } else { 8int }),
                slots_base + 2 * cc <= n0,
                slots_spec == spec_slots(s, slots_base as int, cc as int),
                spec_cells_at(s, slots_spec, bty, usable, ncols) == Ok::<Seq<(CellV, int)>, DbError>(done),
                usable == usable_page_size as int,
                ncols == column_names@.len() as int,
                content as int == (if content0 == 0 { 65536int } else { content0 as int }),
                cells_within(slots_spec, done, content as int, usable),
                forall|j: int| 0 <= j < cc ==> #[trigger] slots@[j] as int == slots_spec[j],
                forall|j: int| 0 <= j < cc ==> #[trigger] sizes@[j] as int == done[j].1,
                forall|i2: int, j2: int|
                    0 <= i2 < x && i2 < j2 < cc ==> #[trigger] slots_spec[i2] + done[i2].1
                        <= #[trigger] slots_spec[j2] || slots_spec[j2] + done[j2].1
                        <= slots_spec[i2],
            decreases cc - x,
        {
            let mut y: usize = x + 1;
            while y < cc
                invariant
                    x < cc,
                    x + 1 <= y <= cc,
                    cc == slots@.len() == sizes@.len(),
                    done.len() == cc,
                    s == input@,
                    n0 == s.len(),
                    n0 >= off + 8,
                    off as int == (if is_first_page { 100int } else { 0int }),
                    spec_page_type(s[off as int]) == Ok::<BTreePageType, DbError>(bty),
                    cc as int == be_uint(s, off as int + 3, 2),
                    content0 as int == be_uint(s, off as int + 5, 2),
                    slots_base as int == off as int + (if spec_is_interior(bty) { 12int } else { 8int }),
                    slots_base + 2 * cc <= n0,
                    slots_spec == spec_slots(s, slots_base as int, cc as int),
                    spec_cells_at(s, slots_spec, bty, usable, ncols) == Ok::<Seq<(CellV, int)>, DbError>(done),
                    usable == usable_page_size as int,
                    ncols == column_names@.len() as int,
                    content as int == (if content0 == 0 { 65536int } else { content0 as int }),
                    cells_within(slots_spec, done, content as int, usable),
                    forall|j: int| 0 <= j < cc ==> #[trigger] slots@[j] as int == slots_spec[j],
                    forall|j: int| 0 <= j < cc ==> #[trigger] sizes@[j] as int == done[j].1,
                    forall|i2: int, j2: int|
                        0 <= i2 < x && i2 < j2 < cc ==> #[trigger] slots_spec[i2] + done[i2].1
                            <= #[trigger] slots_spec[j2] || slots_spec[j2] + done[j2].1
                            <= slots_spec[i2],
                    forall|j2: int|
                        x < j2 < y ==> slots_spec[x as int] + done[x as int].1
                            <= #[trigger] slots_spec[j2] || slots_spec[j2] + done[j2].1
                            <= slots_spec[x as int],
                decreases cc - y,
            {
                let sx = slots[x];
                let zx = sizes[x];
                let sy = slots[y];
                let zy = sizes[y];
                let ok = (zx <= usize::MAX - sx && sx + zx <= sy) || (zy <= usize::MAX - sy && sy
                    + zy <= sx);
                if !ok {
                    proof {
                        assert(slots_spec[x as int] == slots@[x as int] as int);
                        assert(slots_spec[y as int] == slots@[y as int] as int);
                        assert(done[x as int].1 == sizes@[x as int] as int);
                        assert(done[y as int].1 == sizes@[y as int] as int);
                        assert(slots_spec[x as int] + done[x as int].1 <= usable);
                        assert(slots_spec[y as int] + done[y as int].1 <= usable);
                        assert(!(slots_spec[x as int] + done[x as int].1 <= slots_spec[y as int]
                            || slots_spec[y as int] + done[y as int].1 <= slots_spec[x as int]));
                        assert(!cells_disjoint(slots_spec, done));
                    }
                    return Err(DbError::MalformedPage);
                }
                proof {
                    assert(slots_spec[x as int] == slots@[x as int] as int);
                    assert(slots_spec[y as int] == slots@[y as int] as int);
                    assert(done[x as int].1 == sizes@[x as int] as int);
                    assert(done[y as int].1 == sizes@[y as int] as int);
                }
                y = y + 1;
            }
            x = x + 1;
        }
        assert(cells_disjoint(slots_spec, done));
        proof {
            match spec_page(s, is_first_page, usable, ncols) {
                Ok(pv) => {
                    assert(pv.cells =~= done.map(|i2: int, p: (CellV, int)| p.0));
                },
                Err(_) => {
                    assert(false);
                },
            }
        }
        Ok(Page { ty: PageType::BTree(bty), cells, rightmost_pointer: rightmost })
    }
}


/// Does the cell model carry the variant its page class dictates?
pub open spec fn cell_variant_ok(ty: BTreePageType, cv: CellV) -> bool {
    match ty {
        BTreePageType::TableLeaf => cv is TableLeaf,
        BTreePageType::TableInterior => cv is TableInterior,
        BTreePageType::IndexLeaf => cv is IndexLeaf,
        BTreePageType::IndexInterior => cv is IndexInterior,
    }
}

/// Does the cell model carry one value per column?
pub open spec fn cell_vals_len_ok(ncols: int, cv: CellV) -> bool {
    match cv {
        CellV::TableLeaf { vals, .. } => vals.len() == ncols,
        CellV::IndexLeaf { vals } => vals.len() == ncols,
        CellV::IndexInterior { vals, .. } => vals.len() == ncols,
        CellV::TableInterior { .. } => true,
    }
}

pub proof fn lemma_cells_at_variants(
    s: Seq<u8>,
    slots: Seq<int>,
    ty: BTreePageType,
    usable: int,
    ncols: int,
)
    ensures
        spec_cells_at(s, slots, ty, usable, ncols) matches Ok(cvs) ==> forall|i: int|
            0 <= i < cvs.len() ==> cell_variant_ok(ty, (#[trigger] cvs[i]).0) && cell_vals_len_ok(
                ncols,
                cvs[i].0,
            ),
    decreases slots.len(),
{
    if slots.len() > 0 {
        lemma_cells_at_variants(s, slots.drop_first(), ty, usable, ncols);
        match spec_cell(s, slots[0], ty, usable, ncols) {
            Ok((cv, c)) => {
                assert(cell_variant_ok(ty, cv));
                match ty {
                    BTreePageType::TableLeaf => {
                        match crate::varint::spec_varint(s, slots[0]) {
                            Some((psize, plen)) => {
                                match crate::varint::spec_varint(s, slots[0] + plen) {
                                    Some((rid, rlen)) => {
                                        crate::record::lemma_spec_record_len(
                                            s,
                                            slots[0] + plen + rlen,
                                            ncols,
                                        );
                                    },
                                    None => {},
                                }
                            },
                            None => {},
                        }
                    },
                    BTreePageType::IndexLeaf => {
                        match crate::varint::spec_varint(s, slots[0]) {
                            Some((psize, plen)) => {
                                crate::record::lemma_spec_record_len(s, slots[0] + plen, ncols);
                            },
                            None => {},
                        }
                    },
                    BTreePageType::IndexInterior => {
                        match crate::varint::spec_varint(s, slots[0] + 4) {
                            Some((psize, plen)) => {
                                crate::record::lemma_spec_record_len(
                                    s,
                                    slots[0] + 4 + plen,
                                    ncols,
                                );
                            },
                            None => {},
                        }
                    },
                    BTreePageType::TableInterior => {},
                }
                assert(cell_vals_len_ok(ncols, cv));
            },
            Err(_) => {},
        }
    }
}

/// Every cell of a decoded page carries the variant of the page's class,
/// and an interior page always carries a rightmost pointer.
pub proof fn lemma_page_variants(s: Seq<u8>, first: bool, usable: int, ncols: int)
    ensures
        spec_page(s, first, usable, ncols) matches Ok(pv) ==> (forall|i: int|
            0 <= i < pv.cells.len() ==> cell_variant_ok(pv.ty, #[trigger] pv.cells[i])
                && cell_vals_len_ok(ncols, pv.cells[i])) && (spec_is_interior(pv.ty)
            <==> pv.rightmost is Some),
{
    let off: int = if first {
        100
    } else {
        0
    };
    if s.len() >= off + 8 {
        match spec_page_type(s[off]) {
            Ok(ty) => {
                let cc = be_uint(s, off + 3, 2);
                let hdr: int = if spec_is_interior(ty) {
                    12
                } else {
                    8
                };
                let slots_base = off + hdr;
                if slots_base + 2 * cc <= s.len() {
                    let slots = spec_slots(s, slots_base, cc);
                    lemma_cells_at_variants(s, slots, ty, usable, ncols);
                    match spec_cells_at(s, slots, ty, usable, ncols) {
                        Ok(cells) => {
                            assert(forall|i: int|
                                0 <= i < cells.len() ==> cell_variant_ok(
                                    ty,
                                    (#[trigger] cells[i]).0,
                                ));
                            assert(forall|i: int|
                                0 <= i < cells.len() ==> cells.map(|i2: int, p: (CellV, int)| p.0)[i]
                                    == (#[trigger] cells[i]).0);
                        },
                        Err(_) => {},
                    }
                }
            },
            Err(_) => {},
        }
    }
}

} // verus!

