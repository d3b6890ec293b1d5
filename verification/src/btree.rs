//! B-tree walks over the file's pages.
//!
//! A table B-tree stores one row per leaf cell, keyed by row-id; interior
//! cells carry a left child pointer and the greatest row-id of that
//! subtree, and every interior page carries a rightmost child pointer.  An
//! index B-tree stores one (key, row-id) entry per cell, interior cells
//! included.  The walks are recursive with an explicit depth budget: a
//! budget of one more than the file's page count is enough for any acyclic
//! tree, so a walk that runs out of budget has found a cycle and reports
//! the tree malformed.

use crate::cell::spec_rowid_pairs;
use crate::cell::Cell;
use crate::cell::CellV;
use crate::error::DbError;
use crate::page::spec_page;
use crate::page::BTreePageType;
use crate::page::Page;
use crate::record::Record;
use crate::record::spec_value_eq;
use crate::record::SpecVal;
use crate::record::Value;
use vstd::prelude::*;

verus! {

/// One row of a table: its row-id and its column values.
pub type RowV = (i64, Seq<SpecVal>);

/// The bytes of page `page` (1-based) in the file.
pub open spec fn page_window(file: Seq<u8>, psize: int, page: int) -> Seq<u8> {
    file.subrange((page - 1) * psize, page * psize)
}

/// Is `page` a 1-based page number wholly inside the file?
pub open spec fn valid_page(file: Seq<u8>, psize: int, page: int) -> bool {
    &&& psize > 0
    &&& 1 <= page
    &&& page * psize <= file.len()
}

/// The rows of a table-leaf page, in slot order.
pub open spec fn leaf_rows(cells: Seq<CellV>) -> Seq<RowV> {
    Seq::new(
        cells.len(),
        |i: int|
            match cells[i] {
                CellV::TableLeaf { row_id, vals } => (row_id, vals),
                _ => (0, Seq::empty()),
            },
    )
}

/// The rows of the table B-tree rooted at `page`, in tree order: for an
/// interior page, the rows under each cell's left child in slot order,
/// then the rows under the rightmost pointer.  `fuel` bounds the depth.
pub open spec fn spec_table_tree(
    file: Seq<u8>,
    psize: int,
    usable: int,
    ncols: int,
    page: int,
    fuel: nat,
) -> Result<Seq<RowV>, DbError>
    decreases fuel, 1int, 0int,
{
    if fuel == 0 {
        Err(DbError::MalformedPage)
    } else if !valid_page(file, psize, page) {
        Err(DbError::MalformedPage)
    } else {
        match spec_page(page_window(file, psize, page), page == 1, usable, ncols) {
            Err(e) => Err(e),
            Ok(pv) => match pv.ty {
                BTreePageType::TableLeaf => Ok(leaf_rows(pv.cells)),
                BTreePageType::TableInterior => {
                    match spec_table_children(file, psize, usable, ncols, pv.cells, 0, fuel) {
                        Err(e) => Err(e),
                        Ok(rows) => match pv.rightmost {
                            Some(rm) => match spec_table_tree(
                                file,
                                psize,
                                usable,
                                ncols,
                                rm as int,
                                (fuel - 1) as nat,
                            ) {
                                Err(e) => Err(e),
                                Ok(rrows) => Ok(rows + rrows),
                            },
                            None => Err(DbError::MalformedPage),
                        },
                    }
                },
                _ => Err(DbError::MalformedPage),
            },
        }
    }
}

/// The rows under the left children of an interior page's cells, from cell
/// `i` on, in slot order.
pub open spec fn spec_table_children(
    file: Seq<u8>,
    psize: int,
    usable: int,
    ncols: int,
    cells: Seq<CellV>,
    i: int,
    fuel: nat,
) -> Result<Seq<RowV>, DbError>
    decreases fuel, 0int, cells.len() - i,
{
    if i >= cells.len() {
        Ok(Seq::empty())
    } else if fuel == 0 {
        Err(DbError::MalformedPage)
    } else {
        match cells[i] {
            CellV::TableInterior { left, key } => {
                match spec_table_tree(file, psize, usable, ncols, left as int, (fuel - 1) as nat) {
                    Err(e) => Err(e),
                    Ok(crows) => match spec_table_children(
                        file,
                        psize,
                        usable,
                        ncols,
                        cells,
                        i + 1,
                        fuel,
                    ) {
                        Err(e) => Err(e),
                        Ok(rest) => Ok(crows + rest),
                    },
                }
            },
            _ => Err(DbError::MalformedPage),
        }
    }
}

/// The depth budget that any acyclic tree in the file fits under.
pub open spec fn spec_fuel(file: Seq<u8>, psize: int) -> nat {
    (file.len() as int / psize + 1) as nat
}

/// The rows of the table B-tree rooted at `page`, under the canonical
/// depth budget.
pub open spec fn spec_table_rows(
    file: Seq<u8>,
    psize: int,
    usable: int,
    ncols: int,
    page: int,
) -> Result<Seq<RowV>, DbError> {
    spec_table_tree(file, psize, usable, ncols, page, spec_fuel(file, psize))
}

/// Do the decoded records carry exactly the listed rows, with each row-id
/// folded in as `spec_rowid_pairs` lays down?
pub open spec fn records_match(
    recs: Seq<Record>,
    rows: Seq<RowV>,
    names: Seq<Seq<char>>,
    ipk: Option<int>,
) -> bool {
    &&& recs.len() == rows.len()
    &&& forall|i: int|
        0 <= i < rows.len() ==> (#[trigger] recs[i])@ == spec_rowid_pairs(
            names,
            rows[i].1,
            rows[i].0,
            ipk,
        )
}


/// Bounds-check a 1-based page number and slice its bytes out of the file.
fn page_slice<'a>(file: &'a [u8], psize: usize, page: usize) -> (r: Option<&'a [u8]>)
    ensures
        match r {
            Some(w) => valid_page(file@, psize as int, page as int) && w@ == page_window(
                file@,
                psize as int,
                page as int,
            ),
            None => !valid_page(file@, psize as int, page as int),
        },
{
    let n0 = file.len();
    if psize == 0 || page < 1 || page > n0 / psize {
        proof {
            if valid_page(file@, psize as int, page as int) {
                let q = n0 as int / psize as int;
                vstd::arithmetic::div_mod::lemma_fundamental_div_mod(n0 as int, psize as int);
                vstd::arithmetic::div_mod::lemma_mod_bound(n0 as int, psize as int);
                assert((page as int) * (psize as int) <= n0 as int);
                assert(page as int >= q + 1);
                assert((page as int) * (psize as int) >= (q + 1) * (psize as int))
                    by (nonlinear_arith)
                    requires
                        page as int >= q + 1,
                        psize as int > 0,
                ;
                assert((q + 1) * (psize as int) == q * (psize as int) + psize as int)
                    by (nonlinear_arith);
                assert(false);
            }
        }
        return None;
    }
    proof {
        vstd::arithmetic::div_mod::lemma_fundamental_div_mod(n0 as int, psize as int);
        vstd::arithmetic::div_mod::lemma_mod_bound(n0 as int, psize as int);
        assert((page as int) * (psize as int) <= (n0 as int / psize as int) * (psize as int))
            by (nonlinear_arith)
            requires
                page as int <= (n0 as int) / (psize as int),
                psize as int > 0,
        ;
        assert((page as int) * (psize as int) <= n0 as int);
        assert(((page - 1) as int) * (psize as int) == (page as int) * (psize as int) - psize
            as int) by (nonlinear_arith);
    }
    let start = (page - 1) * psize;
    let end = page * psize;
    Some(vstd::slice::slice_subrange(file, start, end))
}

/// Walk the table B-tree rooted at `page`, appending one record per leaf
/// cell in tree order.
#[verifier::rlimit(100)]
pub(crate) fn scan_table(
    file: &[u8],
    psize: usize,
    usable: usize,
    column_names: &Vec<String>,
    ipk: Option<usize>,
    page: usize,
    fuel: usize,
    out: &mut Vec<Record>,
) -> (r: Result<(), DbError>)
    ensures
        ({
            let names = column_names@.map(|i, n: String| n@);
            let ipk_i = match ipk {
                Some(i) => Some(i as int),
                None => None,
            };
            match r {
                Ok(_) => match spec_table_tree(
                    file@,
                    psize as int,
                    usable as int,
                    column_names@.len() as int,
                    page as int,
                    fuel as nat,
                ) {
                    Ok(rows) => {
                        &&& final(out)@.len() == old(out)@.len() + rows.len()
                        &&& final(out)@.subrange(0, old(out)@.len() as int) == old(out)@
                        &&& records_match(
                            final(out)@.skip(old(out)@.len() as int),
                            rows,
                            names,
                            ipk_i,
                        )
                    },
                    Err(_) => false,
                },
                Err(e) => spec_table_tree(
                    file@,
                    psize as int,
                    usable as int,
                    column_names@.len() as int,
                    page as int,
                    fuel as nat,
                ) matches Err(e2) && e == e2,
            }
        }),
    decreases fuel,
{
    let ghost s = file@;
    let ghost ncols = column_names@.len() as int;
    let ghost names = column_names@.map(|i, n: String| n@);
    let ghost ipk_i: Option<int> = match ipk {
        Some(i) => Some(i as int),
        None => None,
    };
    let ghost base = out@.len() as int;
    let ghost out0 = out@;
    if fuel == 0 {
        return Err(DbError::MalformedPage);
    }
    let window = match page_slice(file, psize, page) {
        Some(w) => w,
        None => {
            return Err(DbError::MalformedPage);
        },
    };
    let pg = match Page::parse(window, page == 1, column_names, usable, ipk) {
        Ok(p) => p,
        Err(e) => {
            return Err(e);
        },
    };
    let ghost pv = match spec_page(window@, page == 1, usable as int, ncols) {
        Ok(pv) => pv,
        Err(_) => arbitrary(),
    };
    proof {
        crate::page::lemma_page_variants(window@, page == 1, usable as int, ncols);
        assert(valid_page(s, psize as int, page as int));
    }
    match pg.ty {
        crate::page::PageType::BTree(BTreePageType::TableLeaf) => {
            let cnt = pg.cells.len();
            let mut i: usize = 0;
            proof {
                assert(out@.skip(base) =~= Seq::<Record>::empty());
                assert(out@.subrange(0, base) =~= out0);
            }
            while i < cnt
                invariant
                    i <= cnt,
                    cnt == pg.cells@.len(),
                    pg.cells@.len() == pv.cells.len(),
                    forall|j: int|
                        0 <= j < pv.cells.len() ==> crate::cell::cell_matches(
                            #[trigger] pg.cells@[j],
                            pv.cells[j],
                            names,
                            ipk_i,
                        ),
                    forall|j: int|
                        0 <= j < pv.cells.len() ==> (#[trigger] pv.cells[j]) is TableLeaf,
                    pv.ty == BTreePageType::TableLeaf,
                    out@.len() == base + i,
                    out@.subrange(0, base) == out0,
                    base == out0.len(),
                    records_match(out@.skip(base), leaf_rows(pv.cells).take(i as int), names, ipk_i),
                decreases cnt - i,
            {
                let rec = match &pg.cells[i] {
                    Cell::TableLeaf { record, .. } => record.dup_record(),
                    _ => {
                        proof {
                            assert(false);
                        }
                        return Err(DbError::MalformedPage);
                    },
                };
                let ghost out_before = out@;
                let ghost recv = rec@;
                out.push(rec);
                proof {
                    assert(out@.subrange(0, base) =~= out0);
                    assert(leaf_rows(pv.cells).take(i as int + 1) =~= leaf_rows(pv.cells).take(
                        i as int,
                    ).push(leaf_rows(pv.cells)[i as int]));
                    assert(pv.cells[i as int] is TableLeaf);
                    assert(forall|j: int|
                        0 <= j < i ==> #[trigger] out@.skip(base)[j] == out_before.skip(base)[j]);
                    assert(out@.skip(base)[i as int]@ == recv);
                    assert(recv == spec_rowid_pairs(
                        names,
                        leaf_rows(pv.cells)[i as int].1,
                        leaf_rows(pv.cells)[i as int].0,
                        ipk_i,
                    ));
                }
                i = i + 1;
            }
            proof {
                assert(leaf_rows(pv.cells).take(cnt as int) =~= leaf_rows(pv.cells));
            }
            Ok(())
        },
        crate::page::PageType::BTree(BTreePageType::TableInterior) => {
            let cnt = pg.cells.len();
            let mut i: usize = 0;
            proof {
                assert(out@.skip(base) =~= Seq::<Record>::empty());
                assert(out@.subrange(0, base) =~= out0);
                match spec_table_children(s, psize as int, usable as int, ncols, pv.cells, 0, fuel as nat) {
                    Ok(rest) => {
                        assert(Seq::<RowV>::empty() + rest =~= rest);
                    },
                    Err(_) => {},
                }
            }
            let ghost mut done_rows: Seq<RowV> = Seq::empty();
            while i < cnt
                invariant
                    i <= cnt,
                    cnt == pg.cells@.len(),
                    pg.cells@.len() == pv.cells.len(),
                    forall|j: int|
                        0 <= j < pv.cells.len() ==> crate::cell::cell_matches(
                            #[trigger] pg.cells@[j],
                            pv.cells[j],
                            names,
                            ipk_i,
                        ),
                    pv.ty == BTreePageType::TableInterior,
                    forall|j: int|
                        0 <= j < pv.cells.len() ==> (#[trigger] pv.cells[j]) is TableInterior,
                    valid_page(s, psize as int, page as int),
                    page >= 1,
                    spec_page(
                        page_window(s, psize as int, page as int),
                        page == 1,
                        usable as int,
                        ncols,
                    ) == Ok::<crate::page::PageV, DbError>(pv),
                    s == file@,
                    ncols == column_names@.len() as int,
                    names == column_names@.map(|i2, n: String| n@),
                    ipk_i == (match ipk {
                        Some(i2) => Some(i2 as int),
                        None => None,
                    }),
                    fuel >= 1,
                    out@.len() == base + done_rows.len(),
                    out@.subrange(0, base) == out0,
                    base == out0.len(),
                    records_match(out@.skip(base), done_rows, names, ipk_i),
                    match spec_table_children(
                        s,
                        psize as int,
                        usable as int,
                        ncols,
                        pv.cells,
                        i as int,
                        fuel as nat,
                    ) {
                        Ok(rest) => spec_table_children(
                            s,
                            psize as int,
                            usable as int,
                            ncols,
                            pv.cells,
                            0,
                            fuel as nat,
                        ) == Ok::<Seq<RowV>, DbError>(done_rows + rest),
                        Err(e) => spec_table_children(
                            s,
                            psize as int,
                            usable as int,
                            ncols,
                            pv.cells,
                            0,
                            fuel as nat,
                        ) matches Err(e2) && e == e2,
                    },
                decreases cnt - i,
            {
                let child = match &pg.cells[i] {
                    Cell::TableInterior { left_child_pointer, .. } => *left_child_pointer,
                    _ => {
                        proof {
                            assert(false);
                        }
                        return Err(DbError::MalformedPage);
                    },
                };
                let ghost out_before = out@;
                let ghost done_before = done_rows;
                match scan_table(
                    file,
                    psize,
                    usable,
                    column_names,
                    ipk,
                    child as usize,
                    fuel - 1,
                    out,
                ) {
                    Ok(_) => {},
                    Err(e) => {
                        proof {
                            assert(spec_table_children(
                                s,
                                psize as int,
                                usable as int,
                                ncols,
                                pv.cells,
                                i as int,
                                fuel as nat,
                            ) matches Err(e2) && e2 == e);
                            assert(spec_table_tree(
                                s,
                                psize as int,
                                usable as int,
                                ncols,
                                page as int,
                                fuel as nat,
                            ) matches Err(e3) && e3 == e);
                        }
                        return Err(e);
                    },
                }
                proof {
                    match spec_table_tree(
                        s,
                        psize as int,
                        usable as int,
                        ncols,
                        child as int,
                        (fuel - 1) as nat,
                    ) {
                        Ok(crows) => {
                            done_rows = done_before + crows;
                            assert(out@.subrange(0, base) =~= out0) by {
                                assert(out@.subrange(0, out_before.len() as int).subrange(0, base)
                                    =~= out@.subrange(0, base));
                            }
                            assert(records_match(out@.skip(base), done_rows, names, ipk_i)) by {
                                assert(records_match(out_before.skip(base), done_before, names, ipk_i));
                                assert(records_match(
                                    out@.skip(out_before.len() as int),
                                    crows,
                                    names,
                                    ipk_i,
                                ));
                                assert(forall|j: int|
                                    0 <= j < done_before.len() ==> #[trigger] out@.skip(base)[j]
                                        == out_before.skip(base)[j]);
                                assert(forall|j: int|
                                    done_before.len() <= j < done_rows.len()
                                        ==> #[trigger] out@.skip(base)[j] == out@.skip(
                                        out_before.len() as int,
                                    )[j - done_before.len()]);
                                assert(forall|j: int|
                                    done_before.len() <= j < done_rows.len()
                                        ==> #[trigger] done_rows[j] == crows[j
                                        - done_before.len()]);
                            }
                            match spec_table_children(
                                s,
                                psize as int,
                                usable as int,
                                ncols,
                                pv.cells,
                                i as int + 1,
                                fuel as nat,
                            ) {
                                Ok(rest) => {
                                    assert(done_before + (crows + rest) =~= done_rows + rest);
                                },
                                Err(_) => {},
                            }
                        },
                        Err(_) => {
                            assert(false);
                        },
                    }
                }
                i = i + 1;
            }
            // the rightmost subtree
            let rm = match pg.rightmost_pointer {
                Some(rm) => rm,
                None => {
                    proof {
                        assert(false);
                    }
                    return Err(DbError::MalformedPage);
                },
            };
            let ghost out_before = out@;
            match scan_table(file, psize, usable, column_names, ipk, rm as usize, fuel - 1, out) {
                Ok(_) => {},
                Err(e) => {
                    proof {
                        assert(spec_table_children(
                            s,
                            psize as int,
                            usable as int,
                            ncols,
                            pv.cells,
                            cnt as int,
                            fuel as nat,
                        ) == Ok::<Seq<RowV>, DbError>(Seq::empty()));
                        assert(spec_table_tree(
                            s,
                            psize as int,
                            usable as int,
                            ncols,
                            page as int,
                            fuel as nat,
                        ) matches Err(e3) && e3 == e);
                    }
                    return Err(e);
                },
            }
            proof {
                match spec_table_tree(
                    s,
                    psize as int,
                    usable as int,
                    ncols,
                    rm as int,
                    (fuel - 1) as nat,
                ) {
                    Ok(rrows) => {
                        let total = done_rows + rrows;
                        assert(out@.subrange(0, base) =~= out0) by {
                            assert(out@.subrange(0, out_before.len() as int).subrange(0, base) =~= out@.subrange(0, base));
                        }
                        assert(records_match(out@.skip(base), total, names, ipk_i)) by {
                            assert(records_match(out_before.skip(base), done_rows, names, ipk_i));
                            assert(records_match(
                                out@.skip(out_before.len() as int),
                                rrows,
                                names,
                                ipk_i,
                            ));
                            assert(forall|j: int|
                                0 <= j < done_rows.len() ==> #[trigger] out@.skip(base)[j]
                                    == out_before.skip(base)[j]);
                            assert(forall|j: int|
                                done_rows.len() <= j < total.len() ==> #[trigger] out@.skip(base)[j]
                                    == out@.skip(out_before.len() as int)[j - done_rows.len()]);
                            assert(forall|j: int|
                                done_rows.len() <= j < total.len() ==> #[trigger] total[j]
                                    == rrows[j - done_rows.len()]);
                        }
                        assert(spec_table_children(
                            s,
                            psize as int,
                            usable as int,
                            ncols,
                            pv.cells,
                            cnt as int,
                            fuel as nat,
                        ) == Ok::<Seq<RowV>, DbError>(Seq::empty()));
                        assert(done_rows + Seq::<RowV>::empty() =~= done_rows);
                    },
                    Err(_) => {
                        assert(false);
                    },
                }
            }
            Ok(())
        },
        _ => {
            proof {
                match spec_page(window@, page == 1, usable as int, ncols) {
                    Ok(pv2) => {
                        assert(pv2.ty == BTreePageType::IndexLeaf || pv2.ty
                            == BTreePageType::IndexInterior);
                    },
                    Err(_) => {
                        assert(false);
                    },
                }
            }
            Err(DbError::MalformedPage)
        },
    }
}


/// Strictly ascending row-ids.
pub open spec fn sorted_rows(rows: Seq<RowV>) -> bool {
    forall|i: int, j: int| 0 <= i < j < rows.len() ==> rows[i].0 < rows[j].0
}

/// Every row-id at most `k`.
pub open spec fn rows_le(rows: Seq<RowV>, k: i64) -> bool {
    forall|i: int| 0 <= i < rows.len() ==> (#[trigger] rows[i]).0 <= k
}

/// Every row-id above the bound, when there is one.
pub open spec fn rows_gt(rows: Seq<RowV>, lo: Option<i64>) -> bool {
    match lo {
        Some(l) => forall|i: int| 0 <= i < rows.len() ==> (#[trigger] rows[i]).0 > l,
        None => true,
    }
}

/// The rows of the subtree at `page`, or the empty sequence where the walk
/// fails.
pub open spec fn subtree_rows(
    file: Seq<u8>,
    psize: int,
    usable: int,
    ncols: int,
    page: int,
    fuel: nat,
) -> Seq<RowV> {
    match spec_table_tree(file, psize, usable, ncols, page, fuel) {
        Ok(rows) => rows,
        Err(_) => Seq::empty(),
    }
}

/// The structural invariant of a table B-tree: every page decodes, every
/// interior key is at least every row-id in its left subtree and below
/// every row-id to its right, keys ascend across a page, and leaf rows
/// ascend within a page.
pub open spec fn wf_table_tree(
    file: Seq<u8>,
    psize: int,
    usable: int,
    ncols: int,
    page: int,
    fuel: nat,
) -> bool
    decreases fuel, 1int, 0int,
{
    &&& fuel > 0
    &&& valid_page(file, psize, page)
    &&& match spec_page(page_window(file, psize, page), page == 1, usable, ncols) {
        Err(_) => false,
        Ok(pv) => match pv.ty {
            BTreePageType::TableLeaf => sorted_rows(leaf_rows(pv.cells)),
            BTreePageType::TableInterior => {
                &&& pv.rightmost is Some
                &&& wf_table_children(file, psize, usable, ncols, pv.cells, 0, fuel, None)
                &&& wf_table_tree(
                    file,
                    psize,
                    usable,
                    ncols,
                    pv.rightmost->Some_0 as int,
                    (fuel - 1) as nat,
                )
                &&& rows_gt(
                    subtree_rows(
                        file,
                        psize,
                        usable,
                        ncols,
                        pv.rightmost->Some_0 as int,
                        (fuel - 1) as nat,
                    ),
                    last_key(pv.cells),
                )
            },
            _ => false,
        },
    }
}

/// The key of the last interior cell, if any.
pub open spec fn last_key(cells: Seq<CellV>) -> Option<i64> {
    if cells.len() == 0 {
        None
    } else {
        match cells[cells.len() - 1] {
            CellV::TableInterior { key, .. } => Some(key),
            _ => None,
        }
    }
}

/// The structural invariant over an interior page's cells from `i` on:
/// each subtree is well-formed, its rows sit in `(lo, key]`, and keys
/// ascend.
pub open spec fn wf_table_children(
    file: Seq<u8>,
    psize: int,
    usable: int,
    ncols: int,
    cells: Seq<CellV>,
    i: int,
    fuel: nat,
    lo: Option<i64>,
) -> bool
    decreases fuel, 0int, cells.len() - i,
{
    if i >= cells.len() {
        true
    } else if fuel == 0 {
        false
    } else {
        match cells[i] {
            CellV::TableInterior { left, key } => {
                &&& (match lo {
                    Some(l) => l < key,
                    None => true,
                })
                &&& wf_table_tree(file, psize, usable, ncols, left as int, (fuel - 1) as nat)
                &&& rows_le(
                    subtree_rows(file, psize, usable, ncols, left as int, (fuel - 1) as nat),
                    key,
                )
                &&& rows_gt(
                    subtree_rows(file, psize, usable, ncols, left as int, (fuel - 1) as nat),
                    lo,
                )
                &&& wf_table_children(file, psize, usable, ncols, cells, i + 1, fuel, Some(key))
            },
            _ => false,
        }
    }
}

/// The count of leaf cells under `page`.
pub open spec fn spec_leaf_count(
    file: Seq<u8>,
    psize: int,
    usable: int,
    ncols: int,
    page: int,
    fuel: nat,
) -> int
    decreases fuel, 1int, 0int,
{
    if fuel == 0 || !valid_page(file, psize, page) {
        0
    } else {
        match spec_page(page_window(file, psize, page), page == 1, usable, ncols) {
            Err(_) => 0,
            Ok(pv) => match pv.ty {
                BTreePageType::TableLeaf => pv.cells.len() as int,
                BTreePageType::TableInterior => spec_leaf_count_children(
                    file,
                    psize,
                    usable,
                    ncols,
                    pv.cells,
                    0,
                    fuel,
                ) + (match pv.rightmost {
                    Some(rm) => spec_leaf_count(
                        file,
                        psize,
                        usable,
                        ncols,
                        rm as int,
                        (fuel - 1) as nat,
                    ),
                    None => 0,
                }),
                _ => 0,
            },
        }
    }
}

/// The count of leaf cells under the left children from cell `i` on.
pub open spec fn spec_leaf_count_children(
    file: Seq<u8>,
    psize: int,
    usable: int,
    ncols: int,
    cells: Seq<CellV>,
    i: int,
    fuel: nat,
) -> int
    decreases fuel, 0int, cells.len() - i,
{
    if i >= cells.len() || fuel == 0 {
        0
    } else {
        match cells[i] {
            CellV::TableInterior { left, key } => spec_leaf_count(
                file,
                psize,
                usable,
                ncols,
                left as int,
                (fuel - 1) as nat,
            ) + spec_leaf_count_children(file, psize, usable, ncols, cells, i + 1, fuel),
            _ => 0,
        }
    }
}

/// A walk that succeeds emits exactly one row per leaf cell.
pub proof fn lemma_scan_count(
    file: Seq<u8>,
    psize: int,
    usable: int,
    ncols: int,
    page: int,
    fuel: nat,
)
    ensures
        spec_table_tree(file, psize, usable, ncols, page, fuel) matches Ok(rows) ==> rows.len()
            == spec_leaf_count(file, psize, usable, ncols, page, fuel),
    decreases fuel, 1int, 0int,
{
    if fuel > 0 && valid_page(file, psize, page) {
        match spec_page(page_window(file, psize, page), page == 1, usable, ncols) {
            Ok(pv) => {
                match pv.ty {
                    BTreePageType::TableInterior => {
                        lemma_scan_count_children(file, psize, usable, ncols, pv.cells, 0, fuel);
                        match pv.rightmost {
                            Some(rm) => {
                                lemma_scan_count(
                                    file,
                                    psize,
                                    usable,
                                    ncols,
                                    rm as int,
                                    (fuel - 1) as nat,
                                );
                            },
                            None => {},
                        }
                    },
                    _ => {},
                }
            },
            Err(_) => {},
        }
    }
}

pub proof fn lemma_scan_count_children(
    file: Seq<u8>,
    psize: int,
    usable: int,
    ncols: int,
    cells: Seq<CellV>,
    i: int,
    fuel: nat,
)
    ensures
        spec_table_children(file, psize, usable, ncols, cells, i, fuel) matches Ok(rows)
            ==> rows.len() == spec_leaf_count_children(file, psize, usable, ncols, cells, i, fuel),
    decreases fuel, 0int, cells.len() - i,
{
    if i < cells.len() && fuel > 0 {
        match cells[i] {
            CellV::TableInterior { left, key } => {
                lemma_scan_count(file, psize, usable, ncols, left as int, (fuel - 1) as nat);
                lemma_scan_count_children(file, psize, usable, ncols, cells, i + 1, fuel);
            },
            _ => {},
        }
    }
}

/// Two sorted runs split by a key concatenate into one sorted run.
proof fn lemma_sorted_split(a: Seq<RowV>, b: Seq<RowV>, k: i64)
    requires
        sorted_rows(a),
        sorted_rows(b),
        rows_le(a, k),
        rows_gt(b, Some(k)),
    ensures
        sorted_rows(a + b),
{
    assert forall|i: int, j: int| 0 <= i < j < (a + b).len() implies (a + b)[i].0 < (a + b)[j].0 by {
        if j < a.len() {
        } else if i >= a.len() {
        } else {
            assert((a + b)[i] == a[i]);
            assert((a + b)[j] == b[j - a.len()]);
            assert(a[i].0 <= k);
            assert(b[j - a.len()].0 > k);
        }
    }
}

/// Law: a full scan of a well-formed table B-tree succeeds and emits its
/// rows in strictly ascending row-id order, exactly one per leaf cell.
pub proof fn lemma_full_scan_sorted(
    file: Seq<u8>,
    psize: int,
    usable: int,
    ncols: int,
    page: int,
    fuel: nat,
)
    requires
        wf_table_tree(file, psize, usable, ncols, page, fuel),
    ensures
        spec_table_tree(file, psize, usable, ncols, page, fuel) matches Ok(rows) && sorted_rows(
            rows,
        ) && rows.len() == spec_leaf_count(file, psize, usable, ncols, page, fuel),
    decreases fuel, 1int, 0int,
{
    lemma_scan_count(file, psize, usable, ncols, page, fuel);
    match spec_page(page_window(file, psize, page), page == 1, usable, ncols) {
        Ok(pv) => {
            match pv.ty {
                BTreePageType::TableLeaf => {},
                BTreePageType::TableInterior => {
                    let rm = pv.rightmost->Some_0;
                    lemma_children_sorted(file, psize, usable, ncols, pv.cells, 0, fuel, None);
                    lemma_full_scan_sorted(
                        file,
                        psize,
                        usable,
                        ncols,
                        rm as int,
                        (fuel - 1) as nat,
                    );
                    let crows = match spec_table_children(
                        file,
                        psize,
                        usable,
                        ncols,
                        pv.cells,
                        0,
                        fuel,
                    ) {
                        Ok(r) => r,
                        Err(_) => Seq::empty(),
                    };
                    let rrows = subtree_rows(file, psize, usable, ncols, rm as int, (fuel - 1) as nat);
                    match last_key(pv.cells) {
                        Some(k) => {
                            lemma_sorted_split(crows, rrows, k);
                        },
                        None => {
                            assert(pv.cells.len() == 0 || !(pv.cells[pv.cells.len() - 1]
                                is TableInterior));
                            if pv.cells.len() > 0 {
                                assert(wf_table_children(
                                    file,
                                    psize,
                                    usable,
                                    ncols,
                                    pv.cells,
                                    0,
                                    fuel,
                                    None,
                                ));
                                lemma_children_variant(file, psize, usable, ncols, pv.cells, 0, fuel, None);
                                assert(false);
                            }
                            assert(crows =~= Seq::<RowV>::empty());
                            assert(crows + rrows =~= rrows);
                        },
                    }
                },
                _ => {},
            }
        },
        Err(_) => {},
    }
}

/// Under the children invariant every cell is an interior cell.
proof fn lemma_children_variant(
    file: Seq<u8>,
    psize: int,
    usable: int,
    ncols: int,
    cells: Seq<CellV>,
    i: int,
    fuel: nat,
    lo: Option<i64>,
)
    requires
        0 <= i,
        wf_table_children(file, psize, usable, ncols, cells, i, fuel, lo),
    ensures
        forall|j: int| i <= j < cells.len() ==> (#[trigger] cells[j]) is TableInterior,
    decreases fuel, 0int, cells.len() - i,
{
    if i < cells.len() {
        match cells[i] {
            CellV::TableInterior { left, key } => {
                lemma_children_variant(file, psize, usable, ncols, cells, i + 1, fuel, Some(key));
            },
            _ => {},
        }
    }
}

/// The rows under an interior page's cells are sorted, sit above `lo`, and
/// do not pass the last key.
proof fn lemma_children_sorted(
    file: Seq<u8>,
    psize: int,
    usable: int,
    ncols: int,
    cells: Seq<CellV>,
    i: int,
    fuel: nat,
    lo: Option<i64>,
)
    requires
        0 <= i,
        wf_table_children(file, psize, usable, ncols, cells, i, fuel, lo),
    ensures
        spec_table_children(file, psize, usable, ncols, cells, i, fuel) matches Ok(rows) && ({
            &&& sorted_rows(rows)
            &&& rows_gt(rows, lo)
            &&& match last_key(cells) {
                Some(k) => i < cells.len() ==> rows_le(rows, k),
                None => true,
            }
        }),
    decreases fuel, 0int, cells.len() - i,
{
    if i >= cells.len() {
    } else {
        match cells[i] {
            CellV::TableInterior { left, key } => {
                lemma_full_scan_sorted(file, psize, usable, ncols, left as int, (fuel - 1) as nat);
                lemma_children_sorted(file, psize, usable, ncols, cells, i + 1, fuel, Some(key));
                lemma_children_variant(file, psize, usable, ncols, cells, i + 1, fuel, Some(key));
                let crows = subtree_rows(file, psize, usable, ncols, left as int, (fuel - 1) as nat);
                let rest = match spec_table_children(file, psize, usable, ncols, cells, i + 1, fuel) {
                    Ok(r) => r,
                    Err(_) => Seq::empty(),
                };
                lemma_sorted_split(crows, rest, key);
                // bounds of the concatenation
                assert(rows_gt(crows + rest, lo)) by {
                    assert(forall|j: int|
                        0 <= j < crows.len() ==> (#[trigger] (crows + rest)[j]) == crows[j]);
                    assert(forall|j: int|
                        crows.len() <= j < (crows + rest).len() ==> (#[trigger] (crows + rest)[j])
                            == rest[j - crows.len()]);
                    match lo {
                        Some(l) => {
                            assert(forall|j: int|
                                0 <= j < rest.len() ==> (#[trigger] rest[j]).0 > key || rest[j].0
                                    > l);
                        },
                        None => {},
                    }
                }
                // the last key bounds everything when the run is not empty
                match last_key(cells) {
                    Some(k) => {
                        if i + 1 < cells.len() {
                            assert(key < k) by {
                                lemma_keys_ascend(file, psize, usable, ncols, cells, i + 1, fuel, Some(key));
                            }
                        } else {
                            assert(cells[cells.len() - 1] == cells[i]);
                            assert(k == key);
                        }
                        assert(rows_le(crows + rest, k)) by {
                            assert(forall|j: int|
                                0 <= j < crows.len() ==> (#[trigger] (crows + rest)[j])
                                    == crows[j]);
                            assert(forall|j: int|
                                crows.len() <= j < (crows + rest).len() ==> (#[trigger] (crows
                                    + rest)[j]) == rest[j - crows.len()]);
                        }
                    },
                    None => {
                        lemma_children_variant(file, psize, usable, ncols, cells, i, fuel, lo);
                        assert(cells[cells.len() - 1] is TableInterior);
                        match cells[cells.len() - 1] {
                            CellV::TableInterior { key: kk, .. } => {
                                assert(last_key(cells) == Some(kk));
                            },
                            _ => {},
                        }
                        assert(false);
                    },
                }
            },
            _ => {},
        }
    }
}

/// Keys ascend across an interior page: the last key tops the bound.
proof fn lemma_keys_ascend(
    file: Seq<u8>,
    psize: int,
    usable: int,
    ncols: int,
    cells: Seq<CellV>,
    i: int,
    fuel: nat,
    lo: Option<i64>,
)
    requires
        0 <= i < cells.len(),
        wf_table_children(file, psize, usable, ncols, cells, i, fuel, lo),
    ensures
        match (lo, last_key(cells)) {
            (Some(l), Some(k)) => l < k,
            _ => true,
        },
    decreases fuel, 0int, cells.len() - i,
{
    match cells[i] {
        CellV::TableInterior { left, key } => {
            if i + 1 < cells.len() {
                lemma_keys_ascend(file, psize, usable, ncols, cells, i + 1, fuel, Some(key));
            } else {
                lemma_children_variant(file, psize, usable, ncols, cells, i, fuel, lo);
            }
        },
        _ => {},
    }
}


/// One index entry: the indexed key and the row-id it points to.
pub type EntryV = (SpecVal, i64);

/// The entry carried by one index record: the indexed column's value, then
/// the row-id, which must be an integer.
pub open spec fn spec_entry(vals: Seq<SpecVal>) -> Result<EntryV, DbError> {
    if vals.len() == 2 {
        match vals[1] {
            SpecVal::Int(rid) => Ok((vals[0], rid)),
            _ => Err(DbError::MalformedRecord),
        }
    } else {
        Err(DbError::MalformedRecord)
    }
}

/// The entries of an index-leaf page from cell `i` on, in slot order.
pub open spec fn spec_index_leaf_entries(cells: Seq<CellV>, i: int) -> Result<
    Seq<EntryV>,
    DbError,
>
    decreases cells.len() - i,
{
    if i >= cells.len() {
        Ok(Seq::empty())
    } else {
        match cells[i] {
            CellV::IndexLeaf { vals } => match spec_entry(vals) {
                Err(e) => Err(e),
                Ok(e) => match spec_index_leaf_entries(cells, i + 1) {
                    Err(e2) => Err(e2),
                    Ok(rest) => Ok(seq![e] + rest),
                },
            },
            _ => Err(DbError::MalformedPage),
        }
    }
}

/// The entries of the index B-tree rooted at `page`, in key order for a
/// well-formed index: each interior cell contributes its left subtree's
/// entries and then its own.
pub open spec fn spec_index_tree(
    file: Seq<u8>,
    psize: int,
    usable: int,
    page: int,
    fuel: nat,
) -> Result<Seq<EntryV>, DbError>
    decreases fuel, 1int, 0int,
{
    if fuel == 0 {
        Err(DbError::MalformedPage)
    } else if !valid_page(file, psize, page) {
        Err(DbError::MalformedPage)
    } else {
        match spec_page(page_window(file, psize, page), page == 1, usable, 2) {
            Err(e) => Err(e),
            Ok(pv) => match pv.ty {
                BTreePageType::IndexLeaf => spec_index_leaf_entries(pv.cells, 0),
                BTreePageType::IndexInterior => {
                    match spec_index_children(file, psize, usable, pv.cells, 0, fuel) {
                        Err(e) => Err(e),
                        Ok(entries) => match pv.rightmost {
                            Some(rm) => match spec_index_tree(
                                file,
                                psize,
                                usable,
                                rm as int,
                                (fuel - 1) as nat,
                            ) {
                                Err(e) => Err(e),
                                Ok(rentries) => Ok(entries + rentries),
                            },
                            None => Err(DbError::MalformedPage),
                        },
                    }
                },
                _ => Err(DbError::MalformedPage),
            },
        }
    }
}

/// The entries under an index-interior page's cells from `i` on: each
/// cell's left subtree, then the cell's own entry.
pub open spec fn spec_index_children(
    file: Seq<u8>,
    psize: int,
    usable: int,
    cells: Seq<CellV>,
    i: int,
    fuel: nat,
) -> Result<Seq<EntryV>, DbError>
    decreases fuel, 0int, cells.len() - i,
{
    if i >= cells.len() {
        Ok(Seq::empty())
    } else if fuel == 0 {
        Err(DbError::MalformedPage)
    } else {
        match cells[i] {
            CellV::IndexInterior { left, vals } => {
                match spec_index_tree(file, psize, usable, left as int, (fuel - 1) as nat) {
                    Err(e) => Err(e),
                    Ok(centries) => match spec_entry(vals) {
                        Err(e) => Err(e),
                        Ok(e) => match spec_index_children(file, psize, usable, cells, i + 1, fuel) {
                            Err(e2) => Err(e2),
                            Ok(rest) => Ok(centries + seq![e] + rest),
                        },
                    },
                }
            },
            _ => Err(DbError::MalformedPage),
        }
    }
}

/// The entries of the index B-tree rooted at `page`, under the canonical
/// depth budget.
pub open spec fn spec_index_entries(
    file: Seq<u8>,
    psize: int,
    usable: int,
    page: int,
) -> Result<Seq<EntryV>, DbError> {
    spec_index_tree(file, psize, usable, page, spec_fuel(file, psize))
}

/// The row-ids of the entries whose key equals the needle, in entry order.
pub open spec fn matching_ids(entries: Seq<EntryV>, needle: SpecVal) -> Seq<i64>
    decreases entries.len(),
{
    if entries.len() == 0 {
        Seq::empty()
    } else {
        (if spec_value_eq(entries[0].0, needle) {
            seq![entries[0].1]
        } else {
            Seq::empty()
        }) + matching_ids(entries.drop_first(), needle)
    }
}

pub proof fn lemma_matching_concat(a: Seq<EntryV>, b: Seq<EntryV>, needle: SpecVal)
    ensures
        matching_ids(a + b, needle) == matching_ids(a, needle) + matching_ids(b, needle),
    decreases a.len(),
{
    if a.len() == 0 {
        assert(a + b =~= b);
        assert(matching_ids(a, needle) + matching_ids(b, needle) =~= matching_ids(b, needle));
    } else {
        assert((a + b).drop_first() =~= a.drop_first() + b);
        lemma_matching_concat(a.drop_first(), b, needle);
        assert((a + b)[0] == a[0]);
        assert(matching_ids(a + b, needle) =~= matching_ids(a, needle) + matching_ids(b, needle));
    }
}

pub proof fn lemma_matching_snoc(entries: Seq<EntryV>, e: EntryV, needle: SpecVal)
    ensures
        matching_ids(entries.push(e), needle) == matching_ids(entries, needle) + (if spec_value_eq(
            e.0,
            needle,
        ) {
            seq![e.1]
        } else {
            Seq::empty()
        }),
{
    assert(entries.push(e) =~= entries + seq![e]);
    lemma_matching_concat(entries, seq![e], needle);
    assert(seq![e].drop_first() =~= Seq::<EntryV>::empty());
    assert(seq![e][0] == e);
    assert(matching_ids(Seq::<EntryV>::empty(), needle) == Seq::<i64>::empty());
    if spec_value_eq(e.0, needle) {
        assert(matching_ids(seq![e], needle) =~= seq![e.1]);
    } else {
        assert(matching_ids(seq![e], needle) =~= Seq::<i64>::empty());
    }
}


/// Walk the index B-tree rooted at `page`, appending in entry order the
/// row-id of every entry whose key equals the needle.
///
/// The walk visits every page rather than bounding descent by key order:
/// the on-disk key order interleaves integers and floats by numeric value,
/// and float comparison has no place in this verified core, so no key
/// comparison here could be faithful to it.  The contract pins the exact
/// result either way.
#[verifier::rlimit(100)]
pub(crate) fn scan_index(
    file: &[u8],
    psize: usize,
    usable: usize,
    column_names: &Vec<String>,
    page: usize,
    fuel: usize,
    needle: &Value,
    out: &mut Vec<i64>,
) -> (r: Result<(), DbError>)
    requires
        column_names@.len() == 2,
    ensures
        match r {
            Ok(_) => match spec_index_tree(
                file@,
                psize as int,
                usable as int,
                page as int,
                fuel as nat,
            ) {
                Ok(entries) => final(out)@ == old(out)@ + matching_ids(entries, needle@),
                Err(_) => false,
            },
            Err(e) => spec_index_tree(
                file@,
                psize as int,
                usable as int,
                page as int,
                fuel as nat,
            ) matches Err(e2) && e == e2,
        },
    decreases fuel,
{
    let ghost s = file@;
    let ghost names = column_names@.map(|i, n: String| n@);
    let ghost out0 = out@;
    if fuel == 0 {
        return Err(DbError::MalformedPage);
    }
    let window = match page_slice(file, psize, page) {
        Some(w) => w,
        None => {
            return Err(DbError::MalformedPage);
        },
    };
    let pg = match Page::parse(window, page == 1, column_names, usable, None) {
        Ok(p) => p,
        Err(e) => {
            return Err(e);
        },
    };
    let ghost pv = match spec_page(window@, page == 1, usable as int, 2) {
        Ok(pv) => pv,
        Err(_) => arbitrary(),
    };
    proof {
        crate::page::lemma_page_variants(window@, page == 1, usable as int, 2);
        assert(valid_page(s, psize as int, page as int));
    }
    match pg.ty {
        crate::page::PageType::BTree(BTreePageType::IndexLeaf) => {
            let cnt = pg.cells.len();
            let mut i: usize = 0;
            proof {
                assert(out@ =~= out0 + matching_ids(Seq::<EntryV>::empty(), needle@));
                match spec_index_leaf_entries(pv.cells, 0) {
                    Ok(rest) => {
                        assert(Seq::<EntryV>::empty() + rest =~= rest);
                    },
                    Err(_) => {},
                }
            }
            let mut done_entries: Ghost<Seq<EntryV>> = Ghost(Seq::empty());
            while i < cnt
                invariant
                    i <= cnt,
                    cnt == pg.cells@.len(),
                    pg.cells@.len() == pv.cells.len(),
                    forall|j: int|
                        0 <= j < pv.cells.len() ==> crate::cell::cell_matches(
                            #[trigger] pg.cells@[j],
                            pv.cells[j],
                            names,
                            None,
                        ),
                    forall|j: int|
                        0 <= j < pv.cells.len() ==> (#[trigger] pv.cells[j]) is IndexLeaf,
                    forall|j: int|
                        0 <= j < pv.cells.len() ==> crate::page::cell_vals_len_ok(
                            2,
                            #[trigger] pv.cells[j],
                        ),
                    pv.ty == BTreePageType::IndexLeaf,
                    names == column_names@.map(|i2, n: String| n@),
                    names.len() == 2,
                    s == file@,
                    fuel >= 1,
                    valid_page(s, psize as int, page as int),
                    spec_page(
                        page_window(s, psize as int, page as int),
                        page == 1,
                        usable as int,
                        2,
                    ) == Ok::<crate::page::PageV, DbError>(pv),
                    out@ == out0 + matching_ids(done_entries@, needle@),
                    done_entries@.len() == i,
                    match spec_index_leaf_entries(pv.cells, i as int) {
                        Ok(rest) => spec_index_leaf_entries(pv.cells, 0) == Ok::<
                            Seq<EntryV>,
                            DbError,
                        >(done_entries@ + rest),
                        Err(e) => spec_index_leaf_entries(pv.cells, 0) matches Err(e2) && e == e2,
                    },
                decreases cnt - i,
            {
                let rec = match &pg.cells[i] {
                    Cell::IndexLeaf { record } => record,
                    _ => {
                        proof {
                            assert(false);
                        }
                        return Err(DbError::MalformedPage);
                    },
                };
                let ghost vals = (match pv.cells[i as int] {
                    CellV::IndexLeaf { vals } => vals,
                    _ => arbitrary(),
                });
                proof {
                    assert(crate::page::cell_vals_len_ok(2, pv.cells[i as int]));
                    assert(vals.len() == 2);
                    assert(rec@ == crate::record::spec_pairs(names, vals));
                    assert(rec@.len() == 2);
                    assert(rec.values@.len() == 2);
                    assert(rec@[0] == (names[0], vals[0]));
                    assert(rec@[1] == (names[1], vals[1]));
                    assert(rec.values@[0].1@ == vals[0]);
                    assert(rec.values@[1].1@ == vals[1]);
                }
                let rid = match &rec.values[1].1 {
                    Value::Integer(rid) => *rid,
                    _ => {
                        proof {
                            assert(spec_entry(vals) == Err::<EntryV, DbError>(
                                DbError::MalformedRecord,
                            ));
                            assert(spec_index_leaf_entries(pv.cells, i as int) matches Err(e2)
                                && e2 == DbError::MalformedRecord);
                            assert(spec_index_tree(
                                s,
                                psize as int,
                                usable as int,
                                page as int,
                                fuel as nat,
                            ) matches Err(e3) && e3 == DbError::MalformedRecord);
                        }
                        return Err(DbError::MalformedRecord);
                    },
                };
                let hit = &rec.values[0].1 == needle;
                if hit {
                    out.push(rid);
                }
                proof {
                    let e: EntryV = (vals[0], rid);
                    assert(spec_entry(vals) == Ok::<EntryV, DbError>(e));
                    lemma_matching_snoc(done_entries@, e, needle@);
                    if hit {
                        assert(out@ =~= out0 + matching_ids(done_entries@.push(e), needle@));
                    } else {
                        assert(out@ =~= out0 + matching_ids(done_entries@.push(e), needle@));
                    }
                    match spec_index_leaf_entries(pv.cells, i as int + 1) {
                        Ok(rest) => {
                            assert(spec_index_leaf_entries(pv.cells, i as int) == Ok::<
                                Seq<EntryV>,
                                DbError,
                            >(seq![e] + rest));
                            assert(done_entries@ + (seq![e] + rest) =~= done_entries@.push(e)
                                + rest);
                        },
                        Err(_) => {},
                    }
                    done_entries@ = done_entries@.push(e);
                }
                i = i + 1;
            }
            proof {
                assert(spec_index_leaf_entries(pv.cells, cnt as int) == Ok::<Seq<EntryV>, DbError>(
                    Seq::empty(),
                ));
                assert(done_entries@ + Seq::<EntryV>::empty() =~= done_entries@);
            }
            Ok(())
        },
        crate::page::PageType::BTree(BTreePageType::IndexInterior) => {
            let cnt = pg.cells.len();
            let mut i: usize = 0;
            proof {
                assert(out@ =~= out0 + matching_ids(Seq::<EntryV>::empty(), needle@));
                match spec_index_children(s, psize as int, usable as int, pv.cells, 0, fuel as nat) {
                    Ok(rest) => {
                        assert(Seq::<EntryV>::empty() + rest =~= rest);
                    },
                    Err(_) => {},
                }
            }
            let mut done_entries: Ghost<Seq<EntryV>> = Ghost(Seq::empty());
            while i < cnt
                invariant
                    i <= cnt,
                    cnt == pg.cells@.len(),
                    pg.cells@.len() == pv.cells.len(),
                    forall|j: int|
                        0 <= j < pv.cells.len() ==> crate::cell::cell_matches(
                            #[trigger] pg.cells@[j],
                            pv.cells[j],
                            names,
                            None,
                        ),
                    forall|j: int|
                        0 <= j < pv.cells.len() ==> (#[trigger] pv.cells[j]) is IndexInterior,
                    forall|j: int|
                        0 <= j < pv.cells.len() ==> crate::page::cell_vals_len_ok(
                            2,
                            #[trigger] pv.cells[j],
                        ),
                    pv.ty == BTreePageType::IndexInterior,
                    s == file@,
                    names == column_names@.map(|i2, n: String| n@),
                    names.len() == 2,
                    column_names@.len() == 2,
                    fuel >= 1,
                    valid_page(s, psize as int, page as int),
                    spec_page(
                        page_window(s, psize as int, page as int),
                        page == 1,
                        usable as int,
                        2,
                    ) == Ok::<crate::page::PageV, DbError>(pv),
                    out@ == out0 + matching_ids(done_entries@, needle@),
                    match spec_index_children(
                        s,
                        psize as int,
                        usable as int,
                        pv.cells,
                        i as int,
                        fuel as nat,
                    ) {
                        Ok(rest) => spec_index_children(
                            s,
                            psize as int,
                            usable as int,
                            pv.cells,
                            0,
                            fuel as nat,
                        ) == Ok::<Seq<EntryV>, DbError>(done_entries@ + rest),
                        Err(e) => spec_index_children(
                            s,
                            psize as int,
                            usable as int,
                            pv.cells,
                            0,
                            fuel as nat,
                        ) matches Err(e2) && e == e2,
                    },
                decreases cnt - i,
            {
                let (child, rec) = match &pg.cells[i] {
                    Cell::IndexInterior { left_child_pointer, record } => (
                        *left_child_pointer,
                        record,
                    ),
                    _ => {
                        proof {
                            assert(false);
                        }
                        return Err(DbError::MalformedPage);
                    },
                };
                let ghost (leftg, vals) = (match pv.cells[i as int] {
                    CellV::IndexInterior { left, vals } => (left, vals),
                    _ => arbitrary(),
                });
                let ghost out_before = out@;
                let ghost done_before = done_entries@;
                match scan_index(file, psize, usable, column_names, child as usize, fuel - 1, needle, out) {
                    Ok(_) => {},
                    Err(e) => {
                        proof {
                            assert(spec_index_children(
                                s,
                                psize as int,
                                usable as int,
                                pv.cells,
                                i as int,
                                fuel as nat,
                            ) matches Err(e2) && e2 == e);
                            assert(spec_index_tree(
                                s,
                                psize as int,
                                usable as int,
                                page as int,
                                fuel as nat,
                            ) matches Err(e3) && e3 == e);
                        }
                        return Err(e);
                    },
                }
                let ghost centries = (match spec_index_tree(
                    s,
                    psize as int,
                    usable as int,
                    leftg as int,
                    (fuel - 1) as nat,
                ) {
                    Ok(es) => es,
                    Err(_) => arbitrary(),
                });
                proof {
                    assert(crate::page::cell_vals_len_ok(2, pv.cells[i as int]));
                    assert(vals.len() == 2);
                    assert(rec@ == crate::record::spec_pairs(names, vals));
                    assert(rec@.len() == 2);
                    assert(rec.values@.len() == 2);
                    assert(rec@[0] == (names[0], vals[0]));
                    assert(rec@[1] == (names[1], vals[1]));
                    assert(rec.values@[0].1@ == vals[0]);
                    assert(rec.values@[1].1@ == vals[1]);
                }
                let rid = match &rec.values[1].1 {
                    Value::Integer(rid) => *rid,
                    _ => {
                        proof {
                            assert(spec_entry(vals) == Err::<EntryV, DbError>(
                                DbError::MalformedRecord,
                            ));
                            assert(spec_index_children(
                                s,
                                psize as int,
                                usable as int,
                                pv.cells,
                                i as int,
                                fuel as nat,
                            ) matches Err(e2) && e2 == DbError::MalformedRecord);
                        }
                        return Err(DbError::MalformedRecord);
                    },
                };
                let hit = &rec.values[0].1 == needle;
                if hit {
                    out.push(rid);
                }
                proof {
                    let e: EntryV = (vals[0], rid);
                    assert(spec_entry(vals) == Ok::<EntryV, DbError>(e));
                    lemma_matching_concat(done_before, centries, needle@);
                    lemma_matching_snoc(done_before + centries, e, needle@);
                    assert(out@ =~= out0 + matching_ids((done_before + centries).push(e), needle@));
                    match spec_index_children(
                        s,
                        psize as int,
                        usable as int,
                        pv.cells,
                        i as int + 1,
                        fuel as nat,
                    ) {
                        Ok(rest) => {
                            assert(spec_index_children(
                                s,
                                psize as int,
                                usable as int,
                                pv.cells,
                                i as int,
                                fuel as nat,
                            ) == Ok::<Seq<EntryV>, DbError>(centries + seq![e] + rest));
                            assert(done_before + (centries + seq![e] + rest)
                                =~= (done_before + centries).push(e) + rest);
                        },
                        Err(_) => {},
                    }
                    done_entries@ = (done_before + centries).push(e);
                }
                i = i + 1;
            }
            // the rightmost subtree
            let rm = match pg.rightmost_pointer {
                Some(rm) => rm,
                None => {
                    proof {
                        assert(false);
                    }
                    return Err(DbError::MalformedPage);
                },
            };
            match scan_index(file, psize, usable, column_names, rm as usize, fuel - 1, needle, out) {
                Ok(_) => {},
                Err(e) => {
                    proof {
                        assert(spec_index_children(
                            s,
                            psize as int,
                            usable as int,
                            pv.cells,
                            cnt as int,
                            fuel as nat,
                        ) == Ok::<Seq<EntryV>, DbError>(Seq::empty()));
                        assert(spec_index_tree(
                            s,
                            psize as int,
                            usable as int,
                            page as int,
                            fuel as nat,
                        ) matches Err(e3) && e3 == e);
                    }
                    return Err(e);
                },
            }
            proof {
                assert(spec_index_children(
                    s,
                    psize as int,
                    usable as int,
                    pv.cells,
                    cnt as int,
                    fuel as nat,
                ) == Ok::<Seq<EntryV>, DbError>(Seq::empty()));
                assert(done_entries@ + Seq::<EntryV>::empty() =~= done_entries@);
                match spec_index_tree(s, psize as int, usable as int, rm as int, (fuel - 1) as nat) {
                    Ok(rentries) => {
                        lemma_matching_concat(done_entries@, rentries, needle@);
                        assert(out@ =~= out0 + matching_ids(done_entries@ + rentries, needle@));
                    },
                    Err(_) => {
                        assert(false);
                    },
                }
            }
            Ok(())
        },
        _ => {
            proof {
                match spec_page(window@, page == 1, usable as int, 2) {
                    Ok(pv2) => {
                        assert(pv2.ty == BTreePageType::TableLeaf || pv2.ty
                            == BTreePageType::TableInterior);
                    },
                    Err(_) => {
                        assert(false);
                    },
                }
            }
            Err(DbError::MalformedPage)
        },
    }
}


/// The rows whose row-id is among the targets, in row order.
pub open spec fn filter_ids(rows: Seq<RowV>, ids: Seq<i64>) -> Seq<RowV>
    decreases rows.len(),
{
    if rows.len() == 0 {
        Seq::empty()
    } else {
        (if ids.contains(rows[0].0) {
            seq![rows[0]]
        } else {
            Seq::empty()
        }) + filter_ids(rows.drop_first(), ids)
    }
}

pub proof fn lemma_filter_concat(a: Seq<RowV>, b: Seq<RowV>, ids: Seq<i64>)
    ensures
        filter_ids(a + b, ids) == filter_ids(a, ids) + filter_ids(b, ids),
    decreases a.len(),
{
    if a.len() == 0 {
        assert(a + b =~= b);
        assert(filter_ids(a, ids) + filter_ids(b, ids) =~= filter_ids(b, ids));
    } else {
        assert((a + b).drop_first() =~= a.drop_first() + b);
        lemma_filter_concat(a.drop_first(), b, ids);
        assert((a + b)[0] == a[0]);
        assert(filter_ids(a + b, ids) =~= filter_ids(a, ids) + filter_ids(b, ids));
    }
}

pub proof fn lemma_filter_snoc(rows: Seq<RowV>, row: RowV, ids: Seq<i64>)
    ensures
        filter_ids(rows.push(row), ids) == filter_ids(rows, ids) + (if ids.contains(row.0) {
            seq![row]
        } else {
            Seq::empty()
        }),
{
    assert(rows.push(row) =~= rows + seq![row]);
    lemma_filter_concat(rows, seq![row], ids);
    assert(seq![row].drop_first() =~= Seq::<RowV>::empty());
    assert(seq![row][0] == row);
    assert(filter_ids(Seq::<RowV>::empty(), ids) == Seq::<RowV>::empty());
    if ids.contains(row.0) {
        assert(filter_ids(seq![row], ids) =~= seq![row]);
    } else {
        assert(filter_ids(seq![row], ids) =~= Seq::<RowV>::empty());
    }
}

/// Rows that never pass a key no target reaches are all dropped.
proof fn lemma_filter_le_none(rows: Seq<RowV>, ids: Seq<i64>, k: i64)
    requires
        rows_le(rows, k),
        forall|j: int| 0 <= j < ids.len() ==> !(#[trigger] ids[j] <= k),
    ensures
        filter_ids(rows, ids) == Seq::<RowV>::empty(),
    decreases rows.len(),
{
    if rows.len() > 0 {
        assert(!ids.contains(rows[0].0)) by {
            assert(rows[0].0 <= k);
        }
        assert(forall|j: int| 0 <= j < rows.drop_first().len() ==> (#[trigger] rows.drop_first()[j]).0 <= k);
        lemma_filter_le_none(rows.drop_first(), ids, k);
        assert(filter_ids(rows, ids) =~= Seq::<RowV>::empty());
    }
}

/// Rows that all sit above a key no target exceeds are all dropped.
proof fn lemma_filter_gt_none(rows: Seq<RowV>, ids: Seq<i64>, k: i64)
    requires
        rows_gt(rows, Some(k)),
        forall|j: int| 0 <= j < ids.len() ==> !(#[trigger] ids[j] > k),
    ensures
        filter_ids(rows, ids) == Seq::<RowV>::empty(),
    decreases rows.len(),
{
    if rows.len() > 0 {
        assert(!ids.contains(rows[0].0)) by {
            assert(rows[0].0 > k);
        }
        assert(rows_gt(rows.drop_first(), Some(k))) by {
            assert(forall|j: int|
                0 <= j < rows.drop_first().len() ==> (#[trigger] rows.drop_first()[j]).0 > k);
        }
        lemma_filter_gt_none(rows.drop_first(), ids, k);
        assert(filter_ids(rows, ids) =~= Seq::<RowV>::empty());
    }
}

/// Is some target at most `k`?
fn any_le(ids: &Vec<i64>, k: i64) -> (r: bool)
    ensures
        r == exists|j: int| 0 <= j < ids@.len() && #[trigger] ids@[j] <= k,
{
    let n = ids.len();
    let mut i: usize = 0;
    while i < n
        invariant
            i <= n,
            n == ids@.len(),
            forall|j: int| 0 <= j < i ==> !(#[trigger] ids@[j] <= k),
        decreases n - i,
    {
        if ids[i] <= k {
            return true;
        }
        i = i + 1;
    }
    false
}

/// Does some target exceed `k`?
fn any_gt(ids: &Vec<i64>, k: i64) -> (r: bool)
    ensures
        r == exists|j: int| 0 <= j < ids@.len() && #[trigger] ids@[j] > k,
{
    let n = ids.len();
    let mut i: usize = 0;
    while i < n
        invariant
            i <= n,
            n == ids@.len(),
            forall|j: int| 0 <= j < i ==> !(#[trigger] ids@[j] > k),
        decreases n - i,
    {
        if ids[i] > k {
            return true;
        }
        i = i + 1;
    }
    false
}

/// Is `rid` among the targets?
fn contains_id(ids: &Vec<i64>, rid: i64) -> (r: bool)
    ensures
        r == ids@.contains(rid),
{
    let n = ids.len();
    let mut i: usize = 0;
    while i < n
        invariant
            i <= n,
            n == ids@.len(),
            forall|j: int| 0 <= j < i ==> #[trigger] ids@[j] != rid,
        decreases n - i,
    {
        if ids[i] == rid {
            return true;
        }
        i = i + 1;
    }
    false
}


/// Walk the table B-tree rooted at `page`, appending in tree order each
/// record whose row-id is among the targets.  An interior cell's left
/// child is descended only when some target is at most the cell's key, and
/// the rightmost pointer is followed only when some target exceeds every
/// key; on a well-formed tree the skipped subtrees hold no target.
#[verifier::rlimit(100)]
pub(crate) fn scan_targeted(
    file: &[u8],
    psize: usize,
    usable: usize,
    column_names: &Vec<String>,
    ipk: Option<usize>,
    ids: &Vec<i64>,
    page: usize,
    fuel: usize,
    out: &mut Vec<Record>,
) -> (r: Result<(), DbError>)
    ensures
        final(out)@.len() >= old(out)@.len(),
        final(out)@.subrange(0, old(out)@.len() as int) == old(out)@,
        ({
            let names = column_names@.map(|i, n: String| n@);
            let ipk_i = match ipk {
                Some(i) => Some(i as int),
                None => None,
            };
            wf_table_tree(
                file@,
                psize as int,
                usable as int,
                column_names@.len() as int,
                page as int,
                fuel as nat,
            ) ==> r is Ok && ({
                let rows = subtree_rows(
                    file@,
                    psize as int,
                    usable as int,
                    column_names@.len() as int,
                    page as int,
                    fuel as nat,
                );
                let kept = filter_ids(rows, ids@);
                &&& final(out)@.len() == old(out)@.len() + kept.len()
                &&& records_match(final(out)@.skip(old(out)@.len() as int), kept, names, ipk_i)
            })
        }),
    decreases fuel,
{
    let ghost s = file@;
    let ghost ncols = column_names@.len() as int;
    let ghost names = column_names@.map(|i, n: String| n@);
    let ghost ipk_i: Option<int> = match ipk {
        Some(i) => Some(i as int),
        None => None,
    };
    let ghost base = out@.len() as int;
    let ghost out0 = out@;
    let ghost wf = wf_table_tree(s, psize as int, usable as int, ncols, page as int, fuel as nat);
    if fuel == 0 {
        assert(out@.subrange(0, base) =~= out0);
        return Err(DbError::MalformedPage);
    }
    let window = match page_slice(file, psize, page) {
        Some(w) => w,
        None => {
            proof {
                assert(!wf);
            }
            assert(out@.subrange(0, base) =~= out0);
            return Err(DbError::MalformedPage);
        },
    };
    let pg = match Page::parse(window, page == 1, column_names, usable, ipk) {
        Ok(p) => p,
        Err(e) => {
            proof {
                assert(!wf);
            }
            assert(out@.subrange(0, base) =~= out0);
            return Err(e);
        },
    };
    let ghost pv = match spec_page(window@, page == 1, usable as int, ncols) {
        Ok(pv) => pv,
        Err(_) => arbitrary(),
    };
    proof {
        crate::page::lemma_page_variants(window@, page == 1, usable as int, ncols);
        assert(valid_page(s, psize as int, page as int));
    }
    match pg.ty {
        crate::page::PageType::BTree(BTreePageType::TableLeaf) => {
            let cnt = pg.cells.len();
            let mut i: usize = 0;
            proof {
                assert(out@.skip(base) =~= Seq::<Record>::empty());
                assert(out@.subrange(0, base) =~= out0);
                assert(filter_ids(leaf_rows(pv.cells).take(0), ids@) =~= Seq::<RowV>::empty());
            }
            while i < cnt
                invariant
                    i <= cnt,
                    cnt == pg.cells@.len(),
                    pg.cells@.len() == pv.cells.len(),
                    forall|j: int|
                        0 <= j < pv.cells.len() ==> crate::cell::cell_matches(
                            #[trigger] pg.cells@[j],
                            pv.cells[j],
                            names,
                            ipk_i,
                        ),
                    forall|j: int|
                        0 <= j < pv.cells.len() ==> (#[trigger] pv.cells[j]) is TableLeaf,
                    pv.ty == BTreePageType::TableLeaf,
                    out@.len() == base + filter_ids(leaf_rows(pv.cells).take(i as int), ids@).len(),
                    out@.subrange(0, base) == out0,
                    base == out0.len(),
                    out0 == old(out)@,
                    records_match(
                        out@.skip(base),
                        filter_ids(leaf_rows(pv.cells).take(i as int), ids@),
                        names,
                        ipk_i,
                    ),
                decreases cnt - i,
            {
                let (rid, rec) = match &pg.cells[i] {
                    Cell::TableLeaf { row_id, record } => (*row_id, record),
                    _ => {
                        proof {
                            assert(false);
                        }
                        return Err(DbError::MalformedPage);
                    },
                };
                let hit = contains_id(ids, rid);
                let ghost out_before = out@;
                let ghost lr = leaf_rows(pv.cells);
                if hit {
                    let r2 = rec.dup_record();
                    let ghost recv = r2@;
                    out.push(r2);
                    proof {
                        assert(out@.subrange(0, base) =~= out0);
                        assert(forall|j: int|
                            0 <= j < out_before.len() - base ==> #[trigger] out@.skip(base)[j]
                                == out_before.skip(base)[j]);
                        assert(out@.skip(base)[out_before.len() - base]@ == recv);
                    }
                }
                proof {
                    assert(pv.cells[i as int] is TableLeaf);
                    assert(lr[i as int].0 == rid);
                    assert(lr.take(i as int + 1) =~= lr.take(i as int).push(lr[i as int]));
                    lemma_filter_snoc(lr.take(i as int), lr[i as int], ids@);
                    assert(hit == ids@.contains(lr[i as int].0));
                    if hit {
                        assert(filter_ids(lr.take(i as int + 1), ids@) =~= filter_ids(
                            lr.take(i as int),
                            ids@,
                        ).push(lr[i as int]));
                        assert(rec@ == spec_rowid_pairs(names, lr[i as int].1, lr[i as int].0, ipk_i));
                    } else {
                        assert(filter_ids(lr.take(i as int + 1), ids@) =~= filter_ids(
                            lr.take(i as int),
                            ids@,
                        ));
                    }
                }
                i = i + 1;
            }
            proof {
                assert(leaf_rows(pv.cells).take(cnt as int) =~= leaf_rows(pv.cells));
            }
            Ok(())
        },
        crate::page::PageType::BTree(BTreePageType::TableInterior) => {
            let cnt = pg.cells.len();
            let mut i: usize = 0;
            let mut last_k: Option<i64> = None;
            let ghost mut done_rows: Seq<RowV> = Seq::empty();
            let ghost mut lo: Option<i64> = None;
            proof {
                assert(out@.skip(base) =~= Seq::<Record>::empty());
                assert(out@.subrange(0, base) =~= out0);
                assert(filter_ids(Seq::<RowV>::empty(), ids@) =~= Seq::<RowV>::empty());
                if wf {
                    assert(wf_table_children(
                        s,
                        psize as int,
                        usable as int,
                        ncols,
                        pv.cells,
                        0,
                        fuel as nat,
                        None,
                    ));
                    lemma_children_sorted(
                        s,
                        psize as int,
                        usable as int,
                        ncols,
                        pv.cells,
                        0,
                        fuel as nat,
                        None,
                    );
                    match spec_table_children(s, psize as int, usable as int, ncols, pv.cells, 0, fuel as nat) {
                        Ok(rest) => {
                            assert(Seq::<RowV>::empty() + rest =~= rest);
                        },
                        Err(_) => {},
                    }
                }
            }
            while i < cnt
                invariant
                    i <= cnt,
                    cnt == pg.cells@.len(),
                    pg.cells@.len() == pv.cells.len(),
                    forall|j: int|
                        0 <= j < pv.cells.len() ==> crate::cell::cell_matches(
                            #[trigger] pg.cells@[j],
                            pv.cells[j],
                            names,
                            ipk_i,
                        ),
                    forall|j: int|
                        0 <= j < pv.cells.len() ==> (#[trigger] pv.cells[j]) is TableInterior,
                    pv.ty == BTreePageType::TableInterior,
                    s == file@,
                    ncols == column_names@.len() as int,
                    names == column_names@.map(|i2, n: String| n@),
                    ipk_i == (match ipk {
                        Some(i2) => Some(i2 as int),
                        None => None,
                    }),
                    fuel >= 1,
                    valid_page(s, psize as int, page as int),
                    page >= 1,
                    spec_page(
                        page_window(s, psize as int, page as int),
                        page == 1,
                        usable as int,
                        ncols,
                    ) == Ok::<crate::page::PageV, DbError>(pv),
                    wf == wf_table_tree(
                        s,
                        psize as int,
                        usable as int,
                        ncols,
                        page as int,
                        fuel as nat,
                    ),
                    out@.subrange(0, base) == out0,
                    base == out0.len(),
                    out0 == old(out)@,
                    out@.len() >= base,
                    i == 0 ==> last_k is None,
                    i > 0 ==> last_k == (match pv.cells[i as int - 1] {
                        CellV::TableInterior { key, .. } => Some(key),
                        _ => None,
                    }),
                    wf ==> ({
                        &&& wf_table_children(
                            s,
                            psize as int,
                            usable as int,
                            ncols,
                            pv.cells,
                            i as int,
                            fuel as nat,
                            lo,
                        )
                        &&& lo == last_k
                        &&& match spec_table_children(
                            s,
                            psize as int,
                            usable as int,
                            ncols,
                            pv.cells,
                            i as int,
                            fuel as nat,
                        ) {
                            Ok(rest) => spec_table_children(
                                s,
                                psize as int,
                                usable as int,
                                ncols,
                                pv.cells,
                                0,
                                fuel as nat,
                            ) == Ok::<Seq<RowV>, DbError>(done_rows + rest),
                            Err(_) => false,
                        }
                        &&& out@.len() == base + filter_ids(done_rows, ids@).len()
                        &&& records_match(out@.skip(base), filter_ids(done_rows, ids@), names, ipk_i)
                    }),
                decreases cnt - i,
            {
                let (child, key) = match &pg.cells[i] {
                    Cell::TableInterior { left_child_pointer, key } => (*left_child_pointer, *key),
                    _ => {
                        proof {
                            assert(false);
                        }
                        return Err(DbError::MalformedPage);
                    },
                };
                let ghost out_before = out@;
                let ghost done_before = done_rows;
                proof {
                    if wf {
                        assert(wf_table_tree(
                            s,
                            psize as int,
                            usable as int,
                            ncols,
                            child as int,
                            (fuel - 1) as nat,
                        ));
                        lemma_full_scan_sorted(
                            s,
                            psize as int,
                            usable as int,
                            ncols,
                            child as int,
                            (fuel - 1) as nat,
                        );
                    }
                }
                if any_le(ids, key) {
                    match scan_targeted(
                        file,
                        psize,
                        usable,
                        column_names,
                        ipk,
                        ids,
                        child as usize,
                        fuel - 1,
                        out,
                    ) {
                        Ok(_) => {},
                        Err(e) => {
                            proof {
                                if wf {
                                    assert(false);
                                }
                                assert(out@.len() >= out_before.len());
                                assert(out_before.len() >= base);
                                assert(out@.subrange(0, base) =~= out0) by {
                                    assert(out@.subrange(0, out_before.len() as int) == out_before);
                                    assert(forall|j: int|
                                        0 <= j < base ==> #[trigger] out@.subrange(0, base)[j]
                                            == out@.subrange(0, out_before.len() as int)[j]);
                                    assert(forall|j: int|
                                        0 <= j < base ==> #[trigger] out_before.subrange(0, base)[j]
                                            == out_before[j]);
                                }
                            }
                            return Err(e);
                        },
                    }
                    proof {
                        assert(out@.subrange(0, base) =~= out0) by {
                            assert(out@.subrange(0, out_before.len() as int) == out_before);
                            assert(forall|j: int|
                                0 <= j < base ==> #[trigger] out@.subrange(0, base)[j]
                                    == out@.subrange(0, out_before.len() as int)[j]);
                            assert(forall|j: int|
                                0 <= j < base ==> #[trigger] out_before.subrange(0, base)[j]
                                    == out_before[j]);
                        }
                        if wf {
                            let crows = subtree_rows(
                                s,
                                psize as int,
                                usable as int,
                                ncols,
                                child as int,
                                (fuel - 1) as nat,
                            );
                            done_rows = done_before + crows;
                            lemma_filter_concat(done_before, crows, ids@);
                            let keptc = filter_ids(crows, ids@);
                            let keptd = filter_ids(done_before, ids@);
                            assert(records_match(out@.skip(base), filter_ids(done_rows, ids@), names, ipk_i))
                                by {
                                assert(records_match(out_before.skip(base), keptd, names, ipk_i));
                                assert(records_match(
                                    out@.skip(out_before.len() as int),
                                    keptc,
                                    names,
                                    ipk_i,
                                ));
                                assert(forall|j: int|
                                    0 <= j < keptd.len() ==> #[trigger] out@.skip(base)[j]
                                        == out_before.skip(base)[j]);
                                assert(forall|j: int|
                                    keptd.len() <= j < keptd.len() + keptc.len()
                                        ==> #[trigger] out@.skip(base)[j] == out@.skip(
                                        out_before.len() as int,
                                    )[j - keptd.len()]);
                                assert(forall|j: int|
                                    keptd.len() <= j < keptd.len() + keptc.len()
                                        ==> #[trigger] filter_ids(done_rows, ids@)[j] == keptc[j
                                        - keptd.len()]);
                            }
                        }
                    }
                } else {
                    proof {
                        if wf {
                            let crows = subtree_rows(
                                s,
                                psize as int,
                                usable as int,
                                ncols,
                                child as int,
                                (fuel - 1) as nat,
                            );
                            done_rows = done_before + crows;
                            lemma_filter_le_none(crows, ids@, key);
                            lemma_filter_concat(done_before, crows, ids@);
                            assert(filter_ids(done_rows, ids@) =~= filter_ids(done_before, ids@));
                        }
                    }
                }
                proof {
                    if wf {
                        match spec_table_children(
                            s,
                            psize as int,
                            usable as int,
                            ncols,
                            pv.cells,
                            i as int + 1,
                            fuel as nat,
                        ) {
                            Ok(rest) => {
                                let crows = subtree_rows(
                                    s,
                                    psize as int,
                                    usable as int,
                                    ncols,
                                    child as int,
                                    (fuel - 1) as nat,
                                );
                                assert(spec_table_children(
                                    s,
                                    psize as int,
                                    usable as int,
                                    ncols,
                                    pv.cells,
                                    i as int,
                                    fuel as nat,
                                ) == Ok::<Seq<RowV>, DbError>(crows + rest));
                                assert(done_before + (crows + rest) =~= done_rows + rest);
                            },
                            Err(_) => {},
                        }
                    }
                }
                last_k = Some(key);
                proof {
                    lo = Some(key);
                }
                i = i + 1;
            }
            // the rightmost subtree
            let rm = match pg.rightmost_pointer {
                Some(rm) => rm,
                None => {
                    proof {
                        assert(false);
                    }
                    return Err(DbError::MalformedPage);
                },
            };
            let follow = match last_k {
                None => true,
                Some(k) => any_gt(ids, k),
            };
            let ghost out_before = out@;
            proof {
                if wf {
                    assert(spec_table_children(
                        s,
                        psize as int,
                        usable as int,
                        ncols,
                        pv.cells,
                        cnt as int,
                        fuel as nat,
                    ) == Ok::<Seq<RowV>, DbError>(Seq::empty()));
                    assert(done_rows + Seq::<RowV>::empty() =~= done_rows);
                    assert(wf_table_tree(
                        s,
                        psize as int,
                        usable as int,
                        ncols,
                        rm as int,
                        (fuel - 1) as nat,
                    ));
                    lemma_full_scan_sorted(
                        s,
                        psize as int,
                        usable as int,
                        ncols,
                        rm as int,
                        (fuel - 1) as nat,
                    );
                    if cnt > 0 {
                        assert(last_k == last_key(pv.cells));
                    } else {
                        assert(last_key(pv.cells) is None);
                    }
                }
            }
            if follow {
                match scan_targeted(
                    file,
                    psize,
                    usable,
                    column_names,
                    ipk,
                    ids,
                    rm as usize,
                    fuel - 1,
                    out,
                ) {
                    Ok(_) => {},
                    Err(e) => {
                        proof {
                            if wf {
                                assert(false);
                            }
                            assert(out@.len() >= out_before.len());
                            assert(out_before.len() >= base);
                            assert(out@.subrange(0, base) =~= out0) by {
                                assert(out@.subrange(0, out_before.len() as int) == out_before);
                                assert(forall|j: int|
                                    0 <= j < base ==> #[trigger] out@.subrange(0, base)[j]
                                        == out@.subrange(0, out_before.len() as int)[j]);
                                assert(forall|j: int|
                                    0 <= j < base ==> #[trigger] out_before.subrange(0, base)[j]
                                        == out_before[j]);
                            }
                        }
                        return Err(e);
                    },
                }
            }
            proof {
                assert(out@.subrange(0, base) =~= out0) by {
                    if follow {
                        assert(out@.subrange(0, out_before.len() as int) == out_before);
                        assert(forall|j: int|
                            0 <= j < base ==> #[trigger] out@.subrange(0, base)[j] == out@.subrange(
                                0,
                                out_before.len() as int,
                            )[j]);
                        assert(forall|j: int|
                            0 <= j < base ==> #[trigger] out_before.subrange(0, base)[j]
                                == out_before[j]);
                    }
                }
                if wf {
                    let rrows = subtree_rows(
                        s,
                        psize as int,
                        usable as int,
                        ncols,
                        rm as int,
                        (fuel - 1) as nat,
                    );
                    let total = done_rows + rrows;
                    lemma_filter_concat(done_rows, rrows, ids@);
                    let keptd = filter_ids(done_rows, ids@);
                    let keptr = filter_ids(rrows, ids@);
                    if follow {
                        assert(records_match(out@.skip(base), filter_ids(total, ids@), names, ipk_i))
                            by {
                            assert(records_match(out_before.skip(base), keptd, names, ipk_i));
                            assert(records_match(
                                out@.skip(out_before.len() as int),
                                keptr,
                                names,
                                ipk_i,
                            ));
                            assert(forall|j: int|
                                0 <= j < keptd.len() ==> #[trigger] out@.skip(base)[j]
                                    == out_before.skip(base)[j]);
                            assert(forall|j: int|
                                keptd.len() <= j < keptd.len() + keptr.len()
                                    ==> #[trigger] out@.skip(base)[j] == out@.skip(
                                    out_before.len() as int,
                                )[j - keptd.len()]);
                            assert(forall|j: int|
                                keptd.len() <= j < keptd.len() + keptr.len()
                                    ==> #[trigger] filter_ids(total, ids@)[j] == keptr[j
                                    - keptd.len()]);
                        }
                    } else {
                        match last_k {
                            Some(k) => {
                                lemma_filter_gt_none(rrows, ids@, k);
                                assert(filter_ids(total, ids@) =~= keptd);
                            },
                            None => {},
                        }
                        assert(records_match(out@.skip(base), filter_ids(total, ids@), names, ipk_i));
                    }
                    assert(subtree_rows(
                        s,
                        psize as int,
                        usable as int,
                        ncols,
                        page as int,
                        fuel as nat,
                    ) == total);
                }
            }
            Ok(())
        },
        _ => {
            proof {
                match spec_page(window@, page == 1, usable as int, ncols) {
                    Ok(pv2) => {
                        assert(pv2.ty == BTreePageType::IndexLeaf || pv2.ty
                            == BTreePageType::IndexInterior);
                        assert(!wf);
                    },
                    Err(_) => {
                        assert(false);
                    },
                }
            }
            assert(out@.subrange(0, base) =~= out0);
            Err(DbError::MalformedPage)
        },
    }
}


/// Which row-ids the matching collects: exactly those of entries whose key
/// equals the needle.
pub proof fn lemma_matching_contains(entries: Seq<EntryV>, needle: SpecVal)
    ensures
        forall|rid: i64|
            #[trigger] matching_ids(entries, needle).contains(rid) <==> exists|i: int|
                0 <= i < entries.len() && (#[trigger] entries[i]).1 == rid && spec_value_eq(
                    entries[i].0,
                    needle,
                ),
    decreases entries.len(),
{
    if entries.len() == 0 {
    } else {
        lemma_matching_contains(entries.drop_first(), needle);
        let rest = entries.drop_first();
        let head = (if spec_value_eq(entries[0].0, needle) {
            seq![entries[0].1]
        } else {
            Seq::<i64>::empty()
        });
        assert(matching_ids(entries, needle) == head + matching_ids(rest, needle));
        assert forall|rid: i64| #[trigger] matching_ids(entries, needle).contains(rid) implies (
        exists|i: int|
            0 <= i < entries.len() && (#[trigger] entries[i]).1 == rid && spec_value_eq(
                entries[i].0,
                needle,
            )) by {
            let w = choose|w: int|
                0 <= w < matching_ids(entries, needle).len() && matching_ids(entries, needle)[w]
                    == rid;
            if w < head.len() {
                assert(entries[0].1 == rid && spec_value_eq(entries[0].0, needle));
            } else {
                assert(matching_ids(rest, needle)[w - head.len()] == rid);
                assert(matching_ids(rest, needle).contains(rid));
                let i2 = choose|i2: int|
                    0 <= i2 < rest.len() && (#[trigger] rest[i2]).1 == rid && spec_value_eq(
                        rest[i2].0,
                        needle,
                    );
                assert(entries[i2 + 1].1 == rid && spec_value_eq(entries[i2 + 1].0, needle));
            }
        }
        assert forall|rid: i64|
            (exists|i: int|
                0 <= i < entries.len() && (#[trigger] entries[i]).1 == rid && spec_value_eq(
                    entries[i].0,
                    needle,
                )) implies #[trigger] matching_ids(entries, needle).contains(rid) by {
            let i = choose|i: int|
                0 <= i < entries.len() && (#[trigger] entries[i]).1 == rid && spec_value_eq(
                    entries[i].0,
                    needle,
                );
            if i == 0 {
                assert(matching_ids(entries, needle)[0] == rid);
            } else {
                assert(rest[i - 1] == entries[i]);
                assert(matching_ids(rest, needle).contains(rid));
                let w = choose|w: int|
                    0 <= w < matching_ids(rest, needle).len() && matching_ids(rest, needle)[w]
                        == rid;
                assert(matching_ids(entries, needle)[head.len() + w] == rid);
            }
        }
    }
}

/// Does the index hold exactly one entry per table row, keyed by the row's
/// value in column `ci`?
pub open spec fn index_covers_table(entries: Seq<EntryV>, rows: Seq<RowV>, ci: int) -> bool {
    forall|k: SpecVal, rid: i64|
        #[trigger] entries.contains((k, rid)) <==> exists|j: int|
            0 <= j < rows.len() && (#[trigger] rows[j]).0 == rid && rows[j].1[ci] == k
}

/// Law: on an index that covers its table at column `ci`, looking a value
/// up yields exactly the row-ids of the table rows whose value in that
/// column equals it.
pub proof fn lemma_index_lookup_exact(
    entries: Seq<EntryV>,
    rows: Seq<RowV>,
    ci: int,
    needle: SpecVal,
)
    requires
        index_covers_table(entries, rows, ci),
    ensures
        forall|rid: i64|
            #[trigger] matching_ids(entries, needle).contains(rid) <==> exists|j: int|
                0 <= j < rows.len() && (#[trigger] rows[j]).0 == rid && spec_value_eq(
                    rows[j].1[ci],
                    needle,
                ),
{
    lemma_matching_contains(entries, needle);
    assert forall|rid: i64| #[trigger] matching_ids(entries, needle).contains(rid) implies (
    exists|j: int|
        0 <= j < rows.len() && (#[trigger] rows[j]).0 == rid && spec_value_eq(
            rows[j].1[ci],
            needle,
        )) by {
        let i = choose|i: int|
            0 <= i < entries.len() && (#[trigger] entries[i]).1 == rid && spec_value_eq(
                entries[i].0,
                needle,
            );
        let k = entries[i].0;
        assert(entries[i] == (k, rid));
        assert(entries.contains((k, rid)));
        let j = choose|j: int|
            0 <= j < rows.len() && (#[trigger] rows[j]).0 == rid && rows[j].1[ci] == k;
        assert(spec_value_eq(rows[j].1[ci], needle));
    }
    assert forall|rid: i64|
        (exists|j: int|
            0 <= j < rows.len() && (#[trigger] rows[j]).0 == rid && spec_value_eq(
                rows[j].1[ci],
                needle,
            )) implies #[trigger] matching_ids(entries, needle).contains(rid) by {
        let j = choose|j: int|
            0 <= j < rows.len() && (#[trigger] rows[j]).0 == rid && spec_value_eq(
                rows[j].1[ci],
                needle,
            );
        let k = rows[j].1[ci];
        assert(entries.contains((k, rid)));
        let i = choose|i: int| 0 <= i < entries.len() && #[trigger] entries[i] == (k, rid);
        assert(entries[i].1 == rid && spec_value_eq(entries[i].0, needle));
    }
}


/// Every row of a decoded table tree carries one value per column.
pub proof fn lemma_tree_vals_len(
    file: Seq<u8>,
    psize: int,
    usable: int,
    ncols: int,
    page: int,
    fuel: nat,
)
    ensures
        spec_table_tree(file, psize, usable, ncols, page, fuel) matches Ok(rows) ==> forall|i: int|
            0 <= i < rows.len() ==> (#[trigger] rows[i]).1.len() == ncols,
    decreases fuel, 1int, 0int,
{
    if fuel > 0 && valid_page(file, psize, page) {
        let w = page_window(file, psize, page);
        crate::page::lemma_page_variants(w, page == 1, usable, ncols);
        match spec_page(w, page == 1, usable, ncols) {
            Ok(pv) => {
                match pv.ty {
                    BTreePageType::TableLeaf => {
                        assert forall|i: int|
                            0 <= i < leaf_rows(pv.cells).len() implies (#[trigger] leaf_rows(
                            pv.cells,
                        )[i]).1.len() == ncols by {
                            assert(crate::page::cell_vals_len_ok(ncols, pv.cells[i]));
                        }
                    },
                    BTreePageType::TableInterior => {
                        lemma_tree_vals_len_children(file, psize, usable, ncols, pv.cells, 0, fuel);
                        match pv.rightmost {
                            Some(rm) => {
                                lemma_tree_vals_len(
                                    file,
                                    psize,
                                    usable,
                                    ncols,
                                    rm as int,
                                    (fuel - 1) as nat,
                                );
                                match spec_table_children(
                                    file,
                                    psize,
                                    usable,
                                    ncols,
                                    pv.cells,
                                    0,
                                    fuel,
                                ) {
                                    Ok(crows) => {
                                        match spec_table_tree(
                                            file,
                                            psize,
                                            usable,
                                            ncols,
                                            rm as int,
                                            (fuel - 1) as nat,
                                        ) {
                                            Ok(rrows) => {
                                                assert(forall|i: int|
                                                    0 <= i < crows.len() ==> (#[trigger] (crows
                                                        + rrows)[i]) == crows[i]);
                                                assert(forall|i: int|
                                                    crows.len() <= i < (crows + rrows).len() ==> (
                                                    #[trigger] (crows + rrows)[i]) == rrows[i
                                                        - crows.len()]);
                                            },
                                            Err(_) => {},
                                        }
                                    },
                                    Err(_) => {},
                                }
                            },
                            None => {},
                        }
                    },
                    _ => {},
                }
            },
            Err(_) => {},
        }
    }
}

pub proof fn lemma_tree_vals_len_children(
    file: Seq<u8>,
    psize: int,
    usable: int,
    ncols: int,
    cells: Seq<CellV>,
    i: int,
    fuel: nat,
)
    ensures
        spec_table_children(file, psize, usable, ncols, cells, i, fuel) matches Ok(rows)
            ==> forall|k: int| 0 <= k < rows.len() ==> (#[trigger] rows[k]).1.len() == ncols,
    decreases fuel, 0int, cells.len() - i,
{
    if i < cells.len() && fuel > 0 {
        match cells[i] {
            CellV::TableInterior { left, key } => {
                lemma_tree_vals_len(file, psize, usable, ncols, left as int, (fuel - 1) as nat);
                lemma_tree_vals_len_children(file, psize, usable, ncols, cells, i + 1, fuel);
                match spec_table_tree(file, psize, usable, ncols, left as int, (fuel - 1) as nat) {
                    Ok(crows) => {
                        match spec_table_children(file, psize, usable, ncols, cells, i + 1, fuel) {
                            Ok(rest) => {
                                assert(forall|k: int|
                                    0 <= k < crows.len() ==> (#[trigger] (crows + rest)[k])
                                        == crows[k]);
                                assert(forall|k: int|
                                    crows.len() <= k < (crows + rest).len() ==> (#[trigger] (crows
                                        + rest)[k]) == rest[k - crows.len()]);
                            },
                            Err(_) => {},
                        }
                    },
                    Err(_) => {},
                }
            },
            _ => {},
        }
    }
}

} // verus!







