//! B-tree cells, one layout per page class.
//!
//! A table-leaf cell is a payload-size varint, a row-id varint, and a
//! record; a table-interior cell is a 32-bit left child pointer and an
//! integer key varint; an index-leaf cell is a payload-size varint and a
//! record whose columns are the indexed column followed by the row-id; an
//! index-interior cell adds a 32-bit left child pointer in front.  A
//! payload larger than the page can hold spills to overflow pages, which
//! this reader detects and rejects.

use crate::bytes::be_uint;
use crate::bytes::lemma_be_uint_bound;
use crate::bytes::read_be_uint;
use crate::error::DbError;
use crate::page::BTreePageType;
use crate::record::spec_pairs;
use crate::record::lemma_spec_record_len;
use crate::record::spec_record;
use crate::record::Record;
use crate::record::SpecVal;
use crate::record::Value;
use crate::varint::spec_varint;
use crate::varint::VarInt;
use vstd::prelude::*;

verus! {

/// The model of one decoded cell.
pub enum CellV {
    TableLeaf { row_id: i64, vals: Seq<SpecVal> },
    TableInterior { left: u32, key: i64 },
    IndexLeaf { vals: Seq<SpecVal> },
    IndexInterior { left: u32, vals: Seq<SpecVal> },
}

/// One decoded cell.
#[derive(Debug)]
pub enum Cell {
    TableLeaf { row_id: i64, record: Record },
    TableInterior { left_child_pointer: u32, key: i64 },
    IndexLeaf { record: Record },
    IndexInterior { left_child_pointer: u32, record: Record },
}

/// A row's pairs once the row-id is folded in: under the declared
/// integer-primary-key column when its stored value is NULL, or under a
/// synthetic `id` column when the table declares none.
pub open spec fn spec_rowid_pairs(
    names: Seq<Seq<char>>,
    vals: Seq<SpecVal>,
    row_id: i64,
    ipk: Option<int>,
) -> Seq<(Seq<char>, SpecVal)> {
    match ipk {
        Some(i) => {
            if 0 <= i < vals.len() && vals[i] is Null {
                spec_pairs(names, vals.update(i, SpecVal::Int(row_id)))
            } else {
                spec_pairs(names, vals)
            }
        },
        None => spec_pairs(names, vals).push((seq!['i', 'd'], SpecVal::Int(row_id))),
    }
}

/// Does the decoded cell carry exactly what its model says, with the
/// row-id folded into table-leaf records as `spec_rowid_pairs` lays down?
pub open spec fn cell_matches(
    c: Cell,
    cv: CellV,
    names: Seq<Seq<char>>,
    ipk: Option<int>,
) -> bool {
    match cv {
        CellV::TableLeaf { row_id, vals } => {
            &&& c matches Cell::TableLeaf { row_id: r2, record }
            &&& r2 == row_id
            &&& record@ == spec_rowid_pairs(names, vals, row_id, ipk)
        },
        CellV::TableInterior { left, key } => {
            c matches Cell::TableInterior { left_child_pointer: l2, key: k2 } && l2 == left && k2
                == key
        },
        CellV::IndexLeaf { vals } => {
            c matches Cell::IndexLeaf { record } && record@ == spec_pairs(names, vals)
        },
        CellV::IndexInterior { left, vals } => {
            &&& c matches Cell::IndexInterior { left_child_pointer: l2, record }
            &&& l2 == left
            &&& record@ == spec_pairs(names, vals)
        },
    }
}

/// The cell that starts at `pos`, decoded under page class `ty`, and the
/// count of bytes it occupies.  A payload that does not fit on the page
/// (`usable - 35` bytes on a table leaf, `usable - 23` on index pages)
/// spills to overflow pages, which this reader rejects as unsupported.
pub open spec fn spec_cell(
    s: Seq<u8>,
    pos: int,
    ty: BTreePageType,
    usable: int,
    ncols: int,
) -> Result<(CellV, int), DbError> {
    match ty {
        BTreePageType::TableInterior => {
            if pos < 0 || pos + 4 > s.len() {
                Err(DbError::MalformedPage)
            } else {
                match spec_varint(s, pos + 4) {
                    None => Err(DbError::MalformedPage),
                    Some((key, klen)) => Ok(
                        (CellV::TableInterior { left: be_uint(s, pos, 4) as u32, key }, 4 + klen),
                    ),
                }
            }
        },
        BTreePageType::TableLeaf => {
            match spec_varint(s, pos) {
                None => Err(DbError::MalformedPage),
                Some((psize, plen)) => {
                    if psize < 0 {
                        Err(DbError::MalformedPage)
                    } else if psize > usable - 35 {
                        Err(DbError::UnsupportedFeature)
                    } else {
                        match spec_varint(s, pos + plen) {
                            None => Err(DbError::MalformedPage),
                            Some((rid, rlen)) => {
                                if pos + plen + rlen + psize > s.len() {
                                    Err(DbError::MalformedPage)
                                } else {
                                    match spec_record(s, pos + plen + rlen, ncols) {
                                        Err(e) => Err(e),
                                        Ok((vals, rc)) => {
                                            if rc <= psize {
                                                Ok(
                                                    (
                                                        CellV::TableLeaf { row_id: rid, vals },
                                                        plen + rlen + psize,
                                                    ),
                                                )
                                            } else {
                                                Err(DbError::MalformedRecord)
                                            }
                                        },
                                    }
                                }
                            },
                        }
                    }
                },
            }
        },
        BTreePageType::IndexLeaf => {
            match spec_varint(s, pos) {
                None => Err(DbError::MalformedPage),
                Some((psize, plen)) => {
                    if psize < 0 {
                        Err(DbError::MalformedPage)
                    } else if psize > usable - 23 {
                        Err(DbError::UnsupportedFeature)
                    } else if pos + plen + psize > s.len() {
                        Err(DbError::MalformedPage)
                    } else {
                        match spec_record(s, pos + plen, ncols) {
                            Err(e) => Err(e),
                            Ok((vals, rc)) => {
                                if rc <= psize {
                                    Ok((CellV::IndexLeaf { vals }, plen + psize))
                                } else {
                                    Err(DbError::MalformedRecord)
                                }
                            },
                        }
                    }
                },
            }
        },
        BTreePageType::IndexInterior => {
            if pos < 0 || pos + 4 > s.len() {
                Err(DbError::MalformedPage)
            } else {
                match spec_varint(s, pos + 4) {
                    None => Err(DbError::MalformedPage),
                    Some((psize, plen)) => {
                        if psize < 0 {
                            Err(DbError::MalformedPage)
                        } else if psize > usable - 23 {
                            Err(DbError::UnsupportedFeature)
                        } else if pos + 4 + plen + psize > s.len() {
                            Err(DbError::MalformedPage)
                        } else {
                            match spec_record(s, pos + 4 + plen, ncols) {
                                Err(e) => Err(e),
                                Ok((vals, rc)) => {
                                    if rc <= psize {
                                        Ok(
                                            (
                                                CellV::IndexInterior {
                                                    left: be_uint(s, pos, 4) as u32,
                                                    vals,
                                                },
                                                4 + plen + psize,
                                            ),
                                        )
                                    } else {
                                        Err(DbError::MalformedRecord)
                                    }
                                },
                            }
                        }
                    },
                }
            }
        },
    }
}

impl Cell {
    /// The record carried by a table-leaf cell.
    pub fn as_record(&self) -> (r: Option<&Record>)
        ensures
            match self {
                Cell::TableLeaf { record, .. } => r matches Some(rec) && rec@ == record@,
                _ => r is None,
            },
    {
        match self {
            Cell::TableLeaf { record, .. } => Some(record),
            _ => None,
        }
    }

    /// Decode the cell that starts at `input[pos]` under page class `ty`.
    /// For a table-leaf cell the row-id is folded into the record under the
    /// `ipk` column, or a synthetic `id` column when `ipk` is `None`.
    #[verifier::rlimit(100)]
    pub fn parse(
        input: &[u8],
        pos: usize,
        ty: BTreePageType,
        usable_page_size: usize,
        column_names: &Vec<String>,
        ipk: Option<usize>,
    ) -> (r: Result<(Cell, usize), DbError>)
        ensures
            ({
                let ipk_i = match ipk {
                    Some(i) => Some(i as int),
                    None => None,
                };
                let names = column_names@.map(|i, n: String| n@);
                match r {
                    Ok((cell, consumed)) => match spec_cell(
                        input@,
                        pos as int,
                        ty,
                        usable_page_size as int,
                        column_names@.len() as int,
                    ) {
                        Ok((cv, c)) => {
                            &&& consumed == c
                            &&& pos + consumed <= input@.len()
                            &&& cell_matches(cell, cv, names, ipk_i)
                        },
                        Err(_) => false,
                    },
                    Err(e) => spec_cell(
                        input@,
                        pos as int,
                        ty,
                        usable_page_size as int,
                        column_names@.len() as int,
                    ) matches Err(e2) && e == e2,
                }
            }),
    {
        let ghost s = input@;
        let ghost ncols = column_names@.len() as int;
        let n0 = input.len();
        match ty {
            BTreePageType::TableInterior => {
                if pos >= n0 || n0 - pos < 4 {
                    return Err(DbError::MalformedPage);
                }
                proof {
                    lemma_be_uint_bound(s, pos as int, 4);
                    vstd::arithmetic::power2::lemma2_to64();
                }
                let left = read_be_uint(input, pos, 4) as u32;
                let (kv, klen) = match VarInt::parse(input, pos + 4) {
                    Ok(x) => x,
                    Err(_) => {
                        return Err(DbError::MalformedPage);
                    },
                };
                Ok((Cell::TableInterior { left_child_pointer: left, key: kv.0 }, 4 + klen))
            },
            BTreePageType::TableLeaf => {
                let (pv, plen) = match VarInt::parse(input, pos) {
                    Ok(x) => x,
                    Err(_) => {
                        return Err(DbError::MalformedPage);
                    },
                };
                let psize = pv.0;
                if psize < 0 {
                    return Err(DbError::MalformedPage);
                }
                if usable_page_size < 35 || psize as u64 > (usable_page_size - 35) as u64 {
                    return Err(DbError::UnsupportedFeature);
                }
                let (rv, rlen) = match VarInt::parse(input, pos + plen) {
                    Ok(x) => x,
                    Err(_) => {
                        return Err(DbError::MalformedPage);
                    },
                };
                if psize as u64 > (n0 - (pos + plen + rlen)) as u64 {
                    return Err(DbError::MalformedPage);
                }
                let ps = psize as usize;
                let (mut record, rc) = match Record::parse(input, pos + plen + rlen, column_names) {
                    Ok(x) => x,
                    Err(e) => {
                        return Err(e);
                    },
                };
                if rc > ps {
                    return Err(DbError::MalformedRecord);
                }
                let row_id = rv.0;
                proof {
                    lemma_spec_record_len(s, (pos + plen + rlen) as int, ncols);
                }
                let ghost names = column_names@.map(|i, n: String| n@);
                let ghost before_vec = record.values@;
                let ghost before_pairs = Seq::new(
                    before_vec.len(),
                    |j: int| (before_vec[j].0@, before_vec[j].1@),
                );
                proof {
                    assert(record@ =~= before_pairs);
                    match spec_record(s, (pos + plen + rlen) as int, ncols) {
                        Ok((vals, c)) => {
                            assert(before_pairs == spec_pairs(names, vals));
                            assert(vals.len() == ncols);
                            assert(spec_pairs(names, vals).len() == ncols);
                            assert(before_pairs.len() == spec_pairs(names, vals).len());
                            assert(before_vec.len() == ncols);
                            assert(forall|j: int|
                                0 <= j < ncols ==> #[trigger] before_pairs[j] == (
                                names[j],
                                vals[j],
                                ));
                        },
                        Err(_) => {},
                    }
                }
                match ipk {
                    Some(i) => {
                        if i < record.values.len() {
                            let is_null = match &record.values[i].1 {
                                Value::Null => true,
                                _ => false,
                            };
                            proof {
                                match spec_record(s, (pos + plen + rlen) as int, ncols) {
                                    Ok((vals, c)) => {
                                        assert(before_pairs[i as int] == (
                                        names[i as int],
                                        vals[i as int],
                                        ));
                                        assert(before_pairs[i as int] == (
                                        before_vec[i as int].0@,
                                        before_vec[i as int].1@,
                                        ));
                                        assert(before_vec[i as int].1@ == vals[i as int]);
                                        assert(is_null == (vals[i as int] is Null));
                                    },
                                    Err(_) => {},
                                }
                            }
                            if is_null {
                                let pair = record.values.remove(i);
                                record.values.insert(i, (pair.0, Value::Integer(row_id)));
                                proof {
                                    assert(record.values@ =~= before_vec.update(
                                        i as int,
                                        (pair.0, Value::Integer(row_id)),
                                    ));
                                    match spec_record(s, (pos + plen + rlen) as int, ncols) {
                                        Ok((vals, c)) => {
                                            assert(before_pairs == spec_pairs(names, vals));
                                            assert(before_pairs.len() == names.len());
                                            assert(names.len() == ncols);
                                            assert((i as int) < before_pairs.len());
                                            assert(vals.len() == ncols);
                                            assert(before_pairs[i as int]
                                                == (names[i as int], vals[i as int]));
                                            assert(pair.0@ == names[i as int]);
                                            assert(record@ =~= spec_pairs(
                                                names,
                                                vals.update(i as int, SpecVal::Int(row_id)),
                                            )) by {
                                                assert(forall|j: int|
                                                    0 <= j < ncols ==> #[trigger] before_pairs[j]
                                                        == (names[j], vals[j]));
                                                assert(forall|j: int|
                                                    0 <= j < ncols ==> (
                                                    #[trigger] before_vec[j].0@,
                                                    before_vec[j].1@,
                                                    ) == before_pairs[j]);
                                                assert(pair.0@ == names[i as int]);
                                                assert(forall|j: int|
                                                    0 <= j < ncols ==> #[trigger] record.values@[j]
                                                        == before_vec.update(
                                                        i as int,
                                                        (pair.0, Value::Integer(row_id)),
                                                    )[j]);
                                            }
                                        },
                                        Err(_) => {},
                                    }
                                }
                            }
                        }
                    },
                    None => {
                        let id_name: String = "id".to_owned();
                        proof {
                            reveal_strlit("id");
                            assert(id_name@ =~= seq!['i', 'd']);
                        }
                        record.values.push((id_name, Value::Integer(row_id)));
                        proof {
                            match spec_record(s, (pos + plen + rlen) as int, ncols) {
                                Ok((vals, c)) => {
                                    assert(record@ =~= spec_pairs(names, vals).push(
                                        (seq!['i', 'd'], SpecVal::Int(row_id)),
                                    ));
                                },
                                Err(_) => {},
                            }
                        }
                    },
                }
                Ok((Cell::TableLeaf { row_id, record }, plen + rlen + ps))
            },
            BTreePageType::IndexLeaf => {
                let (pv, plen) = match VarInt::parse(input, pos) {
                    Ok(x) => x,
                    Err(_) => {
                        return Err(DbError::MalformedPage);
                    },
                };
                let psize = pv.0;
                if psize < 0 {
                    return Err(DbError::MalformedPage);
                }
                if usable_page_size < 23 || psize as u64 > (usable_page_size - 23) as u64 {
                    return Err(DbError::UnsupportedFeature);
                }
                if psize as u64 > (n0 - (pos + plen)) as u64 {
                    return Err(DbError::MalformedPage);
                }
                let ps = psize as usize;
                let (record, rc) = match Record::parse(input, pos + plen, column_names) {
                    Ok(x) => x,
                    Err(e) => {
                        return Err(e);
                    },
                };
                if rc > ps {
                    return Err(DbError::MalformedRecord);
                }
                Ok((Cell::IndexLeaf { record }, plen + ps))
            },
            BTreePageType::IndexInterior => {
                if pos >= n0 || n0 - pos < 4 {
                    return Err(DbError::MalformedPage);
                }
                proof {
                    lemma_be_uint_bound(s, pos as int, 4);
                    vstd::arithmetic::power2::lemma2_to64();
                }
                let left = read_be_uint(input, pos, 4) as u32;
                let (pv, plen) = match VarInt::parse(input, pos + 4) {
                    Ok(x) => x,
                    Err(_) => {
                        return Err(DbError::MalformedPage);
                    },
                };
                let psize = pv.0;
                if psize < 0 {
                    return Err(DbError::MalformedPage);
                }
                if usable_page_size < 23 || psize as u64 > (usable_page_size - 23) as u64 {
                    return Err(DbError::UnsupportedFeature);
                }
                if psize as u64 > (n0 - (pos + 4 + plen)) as u64 {
                    return Err(DbError::MalformedPage);
                }
                let ps = psize as usize;
                let (record, rc) = match Record::parse(input, pos + 4 + plen, column_names) {
                    Ok(x) => x,
                    Err(e) => {
                        return Err(e);
                    },
                };
                if rc > ps {
                    return Err(DbError::MalformedRecord);
                }
                Ok((Cell::IndexInterior { left_child_pointer: left, record }, 4 + plen + ps))
            },
        }
    }
}

} // verus!
