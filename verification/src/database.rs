//! The database: its header and its schema, and the reads over its trees.
//!
//! Page 1 holds the schema B-tree, a table tree with the five fixed
//! columns `type`, `name`, `tbl_name`, `rootpage` and `sql`.  Each row
//! names one object: a table (whose CREATE text yields its column list), an
//! index (whose CREATE text yields its indexed column), a view or a
//! trigger.  The reads — a full table scan, an index lookup, a targeted
//! fetch by row-ids — drive the B-tree walks with the column lists the
//! schema supplies.

use crate::btree::filter_ids;
use crate::btree::matching_ids;
use crate::btree::records_match;
use crate::btree::scan_index;
use crate::btree::scan_table;
use crate::btree::scan_targeted;
use crate::btree::spec_fuel;
use crate::btree::spec_index_entries;
use crate::btree::spec_table_rows;
use crate::btree::subtree_rows;
use crate::btree::wf_table_tree;
use crate::btree::RowV;
use crate::bytes::str_eq;
use crate::bytes::utf8_to_string;
use crate::error::DbError;
use crate::header::spec_header;
use crate::header::Header;
use crate::query::create_ok;
use crate::query::parse_create_bytes;
use crate::query::spec_create_columns;
use crate::query::spec_create_ipk;
use crate::record::Record;
use crate::record::SpecVal;
use crate::record::Value;
use vstd::prelude::*;
use vstd::string::StringSliceAdditionalSpecFns;
use vstd::utf8::encode_utf8;
use vstd::utf8::valid_utf8;

verus! {

/// A parsed database: the file header and the schema read from page 1.
#[derive(Debug)]
pub struct Database {
    pub header: Header,
    pub schema: Schema,
}

/// The schema: the objects listed in the schema tree, in row order.
#[derive(Debug)]
pub struct Schema {
    pub objects: Vec<ObjectSchema>,
}

/// One schema object.
#[derive(Debug)]
pub enum ObjectSchema {
    Table(TableSchema),
    Index(IndexSchema),
    View,
    Trigger,
}

/// A table: its name, root page, CREATE text, ordered column names, and
/// the declared integer-primary-key column, if any.
#[derive(Debug)]
pub struct TableSchema {
    pub name: String,
    pub root_page: usize,
    pub sql: String,
    pub column_names: Vec<String>,
    pub ipk: Option<usize>,
}

/// An index: its name, its table's name, its root page, its CREATE text,
/// and the single column it indexes.
#[derive(Debug)]
pub struct IndexSchema {
    pub name: String,
    pub table_name: String,
    pub root_page: usize,
    pub sql: String,
    pub column_name: String,
}

impl ObjectSchema {
    /// The table, when the object is one.
    pub fn as_table(&self) -> (r: Option<&TableSchema>)
        ensures
            match self {
                ObjectSchema::Table(t) => r matches Some(t2) && t2 == t,
                _ => r is None,
            },
    {
        match self {
            ObjectSchema::Table(t) => Some(t),
            _ => None,
        }
    }

    /// The index, when the object is one.
    pub fn as_index(&self) -> (r: Option<&IndexSchema>)
        ensures
            match self {
                ObjectSchema::Index(ix) => r matches Some(ix2) && ix2 == ix,
                _ => r is None,
            },
    {
        match self {
            ObjectSchema::Index(ix) => Some(ix),
            _ => None,
        }
    }
}

/// The five fixed column names of the schema table.
pub open spec fn spec_schema_columns() -> Seq<Seq<char>> {
    seq![
        seq!['t', 'y', 'p', 'e'],
        seq!['n', 'a', 'm', 'e'],
        seq!['t', 'b', 'l', '_', 'n', 'a', 'm', 'e'],
        seq!['r', 'o', 'o', 't', 'p', 'a', 'g', 'e'],
        seq!['s', 'q', 'l'],
    ]
}

/// The UTF-8 bytes of `table`, `index`, `view` and `trigger`.
pub open spec fn kind_table() -> Seq<u8> {
    seq![116u8, 97u8, 98u8, 108u8, 101u8]
}

pub open spec fn kind_index() -> Seq<u8> {
    seq![105u8, 110u8, 100u8, 101u8, 120u8]
}

pub open spec fn kind_view() -> Seq<u8> {
    seq![118u8, 105u8, 101u8, 119u8]
}

pub open spec fn kind_trigger() -> Seq<u8> {
    seq![116u8, 114u8, 105u8, 103u8, 103u8, 101u8, 114u8]
}

/// Does the built object carry what its schema row says?  The row's five
/// values are `type`, `name`, `tbl_name`, `rootpage` and `sql`; names and
/// texts carry over as their UTF-8 bytes, the root page as its integer,
/// and the column lists come from the CREATE text.
pub open spec fn object_matches_row(o: ObjectSchema, row: RowV) -> bool {
    let vals = row.1;
    vals.len() == 5 && match vals[0] {
        SpecVal::Text(kind) => {
            if kind == kind_table() {
                &&& o matches ObjectSchema::Table(t)
                &&& vals[1] matches SpecVal::Text(nb) && encode_utf8(t.name@) == nb
                &&& vals[3] matches SpecVal::Int(rp) && t.root_page == rp
                &&& vals[4] matches SpecVal::Text(sb) && encode_utf8(t.sql@) == sb && (
                spec_create_columns(sb) matches Ok(cols) && t.column_names@.len() == cols.len() && (
                forall|k: int|
                    0 <= k < cols.len() ==> encode_utf8((#[trigger] t.column_names@[k])@)
                        == cols[k]) && t.ipk == (match spec_create_ipk(sb) {
                    Some(i) => Some(i as usize),
                    None => None,
                }))
            } else if kind == kind_index() {
                &&& o matches ObjectSchema::Index(ix)
                &&& vals[1] matches SpecVal::Text(nb) && encode_utf8(ix.name@) == nb
                &&& vals[2] matches SpecVal::Text(tb) && encode_utf8(ix.table_name@) == tb
                &&& vals[3] matches SpecVal::Int(rp) && ix.root_page == rp
                &&& vals[4] matches SpecVal::Text(sb) && encode_utf8(ix.sql@) == sb && (
                spec_create_columns(sb) matches Ok(cols) && cols.len() >= 1 && encode_utf8(
                    ix.column_name@,
                ) == cols[0])
            } else if kind == kind_view() {
                o is View
            } else if kind == kind_trigger() {
                o is Trigger
            } else {
                false
            }
        },
        _ => false,
    }
}

/// Can this schema row build an object: a known kind, names and texts in
/// valid UTF-8, a root page an index can hold, and a CREATE text the
/// recognizer accepts (for an index, with at least one column)?
pub open spec fn schema_row_ok(row: RowV) -> bool {
    let vals = row.1;
    vals.len() == 5 && match vals[0] {
        SpecVal::Text(kind) => {
            if kind == kind_table() {
                &&& vals[1] matches SpecVal::Text(nb) && valid_utf8(nb)
                &&& vals[3] matches SpecVal::Int(rp) && 0 <= rp <= usize::MAX
                &&& vals[4] matches SpecVal::Text(sb) && valid_utf8(sb) && create_ok(sb)
            } else if kind == kind_index() {
                &&& vals[1] matches SpecVal::Text(nb) && valid_utf8(nb)
                &&& vals[2] matches SpecVal::Text(tb) && valid_utf8(tb)
                &&& vals[3] matches SpecVal::Int(rp) && 0 <= rp <= usize::MAX
                &&& vals[4] matches SpecVal::Text(sb) && valid_utf8(sb) && create_ok(sb) && (
                spec_create_columns(sb) matches Ok(cols) && cols.len() >= 1)
            } else if kind == kind_view() || kind == kind_trigger() {
                true
            } else {
                false
            }
        },
        _ => false,
    }
}

/// Is the header well-formed enough to slice pages with?
pub open spec fn db_wf(db: Database) -> bool {
    &&& 512 <= db.header.page_size <= 65536
    &&& db.header.end_page_reserved_bytes < db.header.page_size
}

/// The first table rooted at the given page.
pub open spec fn spec_table_by_root(objects: Seq<ObjectSchema>, root: int) -> Option<TableSchema>
    decreases objects.len(),
{
    if objects.len() == 0 {
        None
    } else {
        match objects[0] {
            ObjectSchema::Table(t) => {
                if t.root_page == root {
                    Some(t)
                } else {
                    spec_table_by_root(objects.drop_first(), root)
                }
            },
            _ => spec_table_by_root(objects.drop_first(), root),
        }
    }
}

/// The first index rooted at the given page.
pub open spec fn spec_index_by_root(objects: Seq<ObjectSchema>, root: int) -> Option<IndexSchema>
    decreases objects.len(),
{
    if objects.len() == 0 {
        None
    } else {
        match objects[0] {
            ObjectSchema::Index(ix) => {
                if ix.root_page == root {
                    Some(ix)
                } else {
                    spec_index_by_root(objects.drop_first(), root)
                }
            },
            _ => spec_index_by_root(objects.drop_first(), root),
        }
    }
}

/// The first table with the given name.
pub open spec fn spec_table_by_name(objects: Seq<ObjectSchema>, name: Seq<char>) -> Option<
    TableSchema,
>
    decreases objects.len(),
{
    if objects.len() == 0 {
        None
    } else {
        match objects[0] {
            ObjectSchema::Table(t) => {
                if t.name@ == name {
                    Some(t)
                } else {
                    spec_table_by_name(objects.drop_first(), name)
                }
            },
            _ => spec_table_by_name(objects.drop_first(), name),
        }
    }
}

impl Schema {
    /// The first table rooted at `root`.
    fn table_by_root(&self, root: usize) -> (r: Option<&TableSchema>)
        ensures
            match r {
                Some(t) => spec_table_by_root(self.objects@, root as int) == Some(*t),
                None => spec_table_by_root(self.objects@, root as int) is None,
            },
    {
        let n = self.objects.len();
        let mut i: usize = 0;
        proof {
            assert(self.objects@.skip(0) =~= self.objects@);
        }
        while i < n
            invariant
                i <= n,
                n == self.objects@.len(),
                spec_table_by_root(self.objects@, root as int) == spec_table_by_root(
                    self.objects@.skip(i as int),
                    root as int,
                ),
            decreases n - i,
        {
            proof {
                assert(self.objects@.skip(i as int)[0] == self.objects@[i as int]);
                assert(self.objects@.skip(i as int).drop_first() =~= self.objects@.skip(
                    i as int + 1,
                ));
            }
            match &self.objects[i] {
                ObjectSchema::Table(t) => {
                    if t.root_page == root {
                        return Some(t);
                    }
                },
                _ => {},
            }
            i = i + 1;
        }
        None
    }

    /// The first index rooted at `root`.
    fn index_by_root(&self, root: usize) -> (r: Option<&IndexSchema>)
        ensures
            match r {
                Some(ix) => spec_index_by_root(self.objects@, root as int) == Some(*ix),
                None => spec_index_by_root(self.objects@, root as int) is None,
            },
    {
        let n = self.objects.len();
        let mut i: usize = 0;
        proof {
            assert(self.objects@.skip(0) =~= self.objects@);
        }
        while i < n
            invariant
                i <= n,
                n == self.objects@.len(),
                spec_index_by_root(self.objects@, root as int) == spec_index_by_root(
                    self.objects@.skip(i as int),
                    root as int,
                ),
            decreases n - i,
        {
            proof {
                assert(self.objects@.skip(i as int)[0] == self.objects@[i as int]);
                assert(self.objects@.skip(i as int).drop_first() =~= self.objects@.skip(
                    i as int + 1,
                ));
            }
            match &self.objects[i] {
                ObjectSchema::Index(ix) => {
                    if ix.root_page == root {
                        return Some(ix);
                    }
                },
                _ => {},
            }
            i = i + 1;
        }
        None
    }

    /// The count of tables in the schema.
    pub fn table_count(&self) -> (r: usize)
        ensures
            r as int == spec_count_tables(self.objects@),
    {
        let n = self.objects.len();
        let mut i: usize = 0;
        let mut count: usize = 0;
        proof {
            assert(self.objects@.take(0) =~= Seq::<ObjectSchema>::empty());
        }
        while i < n
            invariant
                i <= n,
                n == self.objects@.len(),
                count as int == spec_count_tables(self.objects@.take(i as int)),
                count <= i,
            decreases n - i,
        {
            proof {
                assert(self.objects@.take(i as int + 1) =~= self.objects@.take(i as int).push(
                    self.objects@[i as int],
                ));
                lemma_count_tables_snoc(self.objects@.take(i as int), self.objects@[i as int]);
            }
            match &self.objects[i] {
                ObjectSchema::Table(_) => {
                    count = count + 1;
                },
                _ => {},
            }
            i = i + 1;
        }
        proof {
            assert(self.objects@.take(n as int) =~= self.objects@);
        }
        count
    }

    /// The root page of the first table with the given name.
    pub fn table_root_page(&self, table_name: &str) -> (r: Result<usize, DbError>)
        ensures
            match r {
                Ok(p) => spec_table_by_name(self.objects@, table_name@) matches Some(t)
                    && t.root_page == p,
                Err(e) => spec_table_by_name(self.objects@, table_name@) is None && e
                    == DbError::NoSuchTable,
            },
    {
        let n = self.objects.len();
        let mut i: usize = 0;
        proof {
            assert(self.objects@.skip(0) =~= self.objects@);
        }
        while i < n
            invariant
                i <= n,
                n == self.objects@.len(),
                spec_table_by_name(self.objects@, table_name@) == spec_table_by_name(
                    self.objects@.skip(i as int),
                    table_name@,
                ),
            decreases n - i,
        {
            proof {
                assert(self.objects@.skip(i as int)[0] == self.objects@[i as int]);
                assert(self.objects@.skip(i as int).drop_first() =~= self.objects@.skip(
                    i as int + 1,
                ));
            }
            match &self.objects[i] {
                ObjectSchema::Table(t) => {
                    if str_eq(t.name.as_str(), table_name) {
                        return Ok(t.root_page);
                    }
                },
                _ => {},
            }
            i = i + 1;
        }
        Err(DbError::NoSuchTable)
    }
}

/// The count of tables among the objects.
pub open spec fn spec_count_tables(objects: Seq<ObjectSchema>) -> int
    decreases objects.len(),
{
    if objects.len() == 0 {
        0
    } else {
        (if objects[0] is Table {
            1int
        } else {
            0int
        }) + spec_count_tables(objects.drop_first())
    }
}

proof fn lemma_count_tables_snoc(objects: Seq<ObjectSchema>, o: ObjectSchema)
    ensures
        spec_count_tables(objects.push(o)) == spec_count_tables(objects) + (if o is Table {
            1int
        } else {
            0int
        }),
    decreases objects.len(),
{
    if objects.len() == 0 {
        assert(objects.push(o).drop_first() =~= Seq::<ObjectSchema>::empty());
        assert(objects.push(o)[0] == o);
        assert(spec_count_tables(Seq::<ObjectSchema>::empty()) == 0);
    } else {
        assert(objects.push(o).drop_first() =~= objects.drop_first().push(o));
        assert(objects.push(o)[0] == objects[0]);
        lemma_count_tables_snoc(objects.drop_first(), o);
    }
}


/// Byte-wise lexicographic order, from position `i` on.
pub open spec fn lex_le_from(a: Seq<u8>, b: Seq<u8>, i: int) -> bool
    decreases a.len() - i,
{
    if i < 0 || i >= a.len() {
        true
    } else if i >= b.len() {
        false
    } else if a[i] < b[i] {
        true
    } else if a[i] > b[i] {
        false
    } else {
        lex_le_from(a, b, i + 1)
    }
}

/// Byte-wise lexicographic order.
pub open spec fn lex_le(a: Seq<u8>, b: Seq<u8>) -> bool {
    lex_le_from(a, b, 0)
}

proof fn lemma_lex_total_from(a: Seq<u8>, b: Seq<u8>, i: int)
    ensures
        lex_le_from(a, b, i) || lex_le_from(b, a, i),
    decreases a.len() - i,
{
    if 0 <= i < a.len() && i < b.len() && a[i] == b[i] {
        lemma_lex_total_from(a, b, i + 1);
    }
}

proof fn lemma_lex_trans_from(a: Seq<u8>, b: Seq<u8>, c: Seq<u8>, i: int)
    requires
        lex_le_from(a, b, i),
        lex_le_from(b, c, i),
    ensures
        lex_le_from(a, c, i),
    decreases a.len() - i,
{
    if 0 <= i < a.len() {
        if i < b.len() && i < c.len() && a[i] == b[i] && b[i] == c[i] {
            lemma_lex_trans_from(a, b, c, i + 1);
        }
    }
}

proof fn lemma_lex_refl_from(a: Seq<u8>, i: int)
    ensures
        lex_le_from(a, a, i),
    decreases a.len() - i,
{
    if 0 <= i < a.len() {
        lemma_lex_refl_from(a, i + 1);
    }
}

/// Byte-wise order is reflexive.
pub proof fn lemma_lex_refl(a: Seq<u8>)
    ensures
        lex_le(a, a),
{
    lemma_lex_refl_from(a, 0);
}

/// Byte-wise order is total.
pub proof fn lemma_lex_total(a: Seq<u8>, b: Seq<u8>)
    ensures
        lex_le(a, b) || lex_le(b, a),
{
    lemma_lex_total_from(a, b, 0);
}

/// Byte-wise order is transitive.
pub proof fn lemma_lex_trans(a: Seq<u8>, b: Seq<u8>, c: Seq<u8>)
    requires
        lex_le(a, b),
        lex_le(b, c),
    ensures
        lex_le(a, c),
{
    lemma_lex_trans_from(a, b, c, 0);
}

/// Does `a` sort at or before `b`, comparing UTF-8 bytes?
fn str_le(a: &str, b: &str) -> (r: bool)
    ensures
        r == lex_le(a.spec_bytes(), b.spec_bytes()),
{
    let ab = a.as_bytes();
    let bb = b.as_bytes();
    let an = ab.len();
    let bn = bb.len();
    let mut i: usize = 0;
    while i < an
        invariant
            i <= an,
            an == ab@.len(),
            bn == bb@.len(),
            ab@ == a.spec_bytes(),
            bb@ == b.spec_bytes(),
            lex_le(a.spec_bytes(), b.spec_bytes()) == lex_le_from(ab@, bb@, i as int),
        decreases an - i,
    {
        if i >= bn {
            return false;
        }
        if ab[i] < bb[i] {
            return true;
        }
        if ab[i] > bb[i] {
            return false;
        }
        i = i + 1;
    }
    true
}

/// The table names, in schema order.
pub open spec fn spec_table_names(objects: Seq<ObjectSchema>) -> Seq<Seq<char>>
    decreases objects.len(),
{
    if objects.len() == 0 {
        Seq::empty()
    } else {
        (match objects[0] {
            ObjectSchema::Table(t) => seq![t.name@],
            _ => Seq::empty(),
        }) + spec_table_names(objects.drop_first())
    }
}

proof fn lemma_table_names_snoc(objects: Seq<ObjectSchema>, o: ObjectSchema)
    ensures
        spec_table_names(objects.push(o)) == spec_table_names(objects) + (match o {
            ObjectSchema::Table(t) => seq![t.name@],
            _ => Seq::empty(),
        }),
    decreases objects.len(),
{
    if objects.len() == 0 {
        assert(objects.push(o).drop_first() =~= Seq::<ObjectSchema>::empty());
        assert(objects.push(o)[0] == o);
        assert(spec_table_names(Seq::<ObjectSchema>::empty()) =~= Seq::<Seq<char>>::empty());
        assert(spec_table_names(objects.push(o)) =~= spec_table_names(objects) + (match o {
            ObjectSchema::Table(t) => seq![t.name@],
            _ => Seq::<Seq<char>>::empty(),
        }));
    } else {
        assert(objects.push(o).drop_first() =~= objects.drop_first().push(o));
        assert(objects.push(o)[0] == objects[0]);
        lemma_table_names_snoc(objects.drop_first(), o);
        assert(spec_table_names(objects.push(o)) =~= spec_table_names(objects) + (match o {
            ObjectSchema::Table(t) => seq![t.name@],
            _ => Seq::<Seq<char>>::empty(),
        }));
    }
}

impl Schema {
    /// The table names, sorted bytewise ascending.
    #[verifier::rlimit(100)]
    pub fn table_names(&self) -> (r: Vec<&str>)
        ensures
            r@.map(|i, s: &str| s@).to_multiset() == spec_table_names(self.objects@).to_multiset(),
            forall|i: int, j: int|
                0 <= i < j < r@.len() ==> lex_le(
                    (#[trigger] r@[i]).spec_bytes(),
                    (#[trigger] r@[j]).spec_bytes(),
                ),
    {
        broadcast use vstd::seq_lib::group_to_multiset_ensures;

        let n = self.objects.len();
        let mut pool: Vec<&str> = Vec::new();
        let mut i: usize = 0;
        proof {
            assert(self.objects@.take(0) =~= Seq::<ObjectSchema>::empty());
            assert(spec_table_names(Seq::<ObjectSchema>::empty()) =~= Seq::<Seq<char>>::empty());
            assert(pool@.map(|k, s: &str| s@) =~= Seq::<Seq<char>>::empty());
        }
        while i < n
            invariant
                i <= n,
                n == self.objects@.len(),
                pool@.map(|k, s: &str| s@) =~= spec_table_names(self.objects@.take(i as int)),
            decreases n - i,
        {
            let ghost pool_old = pool@;
            match &self.objects[i] {
                ObjectSchema::Table(t) => {
                    pool.push(t.name.as_str());
                    proof {
                        assert(pool@.map(|k, s: &str| s@) =~= pool_old.map(|k, s: &str| s@).push(
                            t.name@,
                        ));
                    }
                },
                _ => {},
            }
            proof {
                assert(self.objects@.take(i as int + 1) =~= self.objects@.take(i as int).push(
                    self.objects@[i as int],
                ));
                lemma_table_names_snoc(self.objects@.take(i as int), self.objects@[i as int]);
                match self.objects@[i as int] {
                    ObjectSchema::Table(t2) => {
                        assert(spec_table_names(self.objects@.take(i as int + 1))
                            =~= spec_table_names(self.objects@.take(i as int)).push(t2.name@));
                    },
                    _ => {
                        assert(spec_table_names(self.objects@.take(i as int + 1))
                            =~= spec_table_names(self.objects@.take(i as int)));
                    },
                }
            }
            i = i + 1;
        }
        proof {
            assert(self.objects@.take(n as int) =~= self.objects@);
        }
        let ghost all = spec_table_names(self.objects@);
        // selection sort: repeatedly move the least remaining name over
        let mut out: Vec<&str> = Vec::new();
        proof {
            assert(out@.map(|k, s: &str| s@) =~= Seq::<Seq<char>>::empty());
            assert(out@.map(|k, s: &str| s@).to_multiset().add(
                pool@.map(|k, s: &str| s@).to_multiset(),
            ) =~= all.to_multiset());
        }
        while pool.len() > 0
            invariant
                out@.map(|k, s: &str| s@).to_multiset().add(
                    pool@.map(|k, s: &str| s@).to_multiset(),
                ) == all.to_multiset(),
                forall|x: int, y: int|
                    0 <= x < y < out@.len() ==> lex_le(
                        (#[trigger] out@[x]).spec_bytes(),
                        (#[trigger] out@[y]).spec_bytes(),
                    ),
                forall|x: int, y: int|
                    0 <= x < out@.len() && 0 <= y < pool@.len() ==> lex_le(
                        (#[trigger] out@[x]).spec_bytes(),
                        (#[trigger] pool@[y]).spec_bytes(),
                    ),
            decreases pool@.len(),
        {
            let pn = pool.len();
            let mut m: usize = 0;
            let mut j: usize = 1;
            proof {
                lemma_lex_refl(pool@[0].spec_bytes());
            }
            while j < pn
                invariant
                    m < j <= pn || (j <= pn && m == 0),
                    m < pn,
                    pn == pool@.len(),
                    forall|k: int|
                        0 <= k < j ==> lex_le(
                            pool@[m as int].spec_bytes(),
                            (#[trigger] pool@[k]).spec_bytes(),
                        ),
                decreases pn - j,
            {
                if str_le(pool[j], pool[m]) {
                    proof {
                        lemma_lex_total(
                            pool@[j as int].spec_bytes(),
                            pool@[m as int].spec_bytes(),
                        );
                        assert(forall|k: int|
                            0 <= k < j ==> lex_le(
                                pool@[j as int].spec_bytes(),
                                (#[trigger] pool@[k]).spec_bytes(),
                            )) by {
                            assert forall|k: int| 0 <= k < j implies lex_le(
                                pool@[j as int].spec_bytes(),
                                (#[trigger] pool@[k]).spec_bytes(),
                            ) by {
                                lemma_lex_trans(
                                    pool@[j as int].spec_bytes(),
                                    pool@[m as int].spec_bytes(),
                                    pool@[k].spec_bytes(),
                                );
                            }
                        }
                    }
                    m = j;
                }
                proof {
                    if !lex_le(pool@[m as int].spec_bytes(), pool@[j as int].spec_bytes()) {
                        lemma_lex_total(
                            pool@[m as int].spec_bytes(),
                            pool@[j as int].spec_bytes(),
                        );
                        assert(false);
                    }
                }
                j = j + 1;
            }
            let ghost pool_old = pool@;
            let ghost out_old = out@;
            let removed = pool.remove(m);
            out.push(removed);
            proof {
                broadcast use vstd::seq_lib::group_to_multiset_ensures;

                let om = out_old.map(|k, s: &str| s@);
                let pm = pool_old.map(|k, s: &str| s@);
                let om2 = out@.map(|k, s: &str| s@);
                let pm2 = pool@.map(|k, s: &str| s@);
                assert(pm.remove(m as int) =~= pm2);
                assert(om2 =~= om.push(removed@));
                assert(pm[m as int] == removed@);
                assert(om.push(removed@).to_multiset() =~= om.to_multiset().insert(removed@));
                assert(pm.remove(m as int).to_multiset() =~= pm.to_multiset().remove(
                    pm[m as int],
                ));
                assert(om2.to_multiset() =~= om.to_multiset().insert(removed@));
                assert(pm2.to_multiset() =~= pm.to_multiset().remove(removed@));
                assert(pm.contains(removed@)) by {
                    assert(pm[m as int] == removed@);
                }
                assert(pm.to_multiset().count(removed@) > 0);
                assert(om2.to_multiset().add(pm2.to_multiset()) =~= all.to_multiset());
            }
        }
        proof {
            assert(pool@.map(|k, s: &str| s@) =~= Seq::<Seq<char>>::empty());
            assert(out@.map(|k, s: &str| s@).to_multiset().add(
                Seq::<Seq<char>>::empty().to_multiset(),
            ) =~= out@.map(|k, s: &str| s@).to_multiset());
        }
        out
    }
}


/// One more than the page count: the canonical walk budget.
fn compute_fuel(len: usize, psize: usize) -> (r: usize)
    requires
        psize >= 2,
    ensures
        r as int == len as int / psize as int + 1,
{
    proof {
        let q = len as int / psize as int;
        vstd::arithmetic::div_mod::lemma_fundamental_div_mod(len as int, psize as int);
        vstd::arithmetic::div_mod::lemma_mod_bound(len as int, psize as int);
        vstd::arithmetic::div_mod::lemma_div_pos_is_pos(len as int, psize as int);
        assert(psize as int * q >= 2 * q) by (nonlinear_arith)
            requires
                q >= 0,
                psize as int >= 2,
        ;
    }
    len / psize + 1
}

/// The index the row-id folds into, as the walkers take it.
pub open spec fn ipk_view(ipk: Option<usize>) -> Option<int> {
    match ipk {
        Some(i) => Some(i as int),
        None => None,
    }
}


/// Build the schema objects, one per decoded schema row.
#[verifier::rlimit(100)]
#[verifier::spinoff_prover]
fn build_schema(recs: &Vec<Record>, Ghost(rows): Ghost<Seq<RowV>>) -> (r: Result<
    Vec<ObjectSchema>,
    DbError,
>)
    requires
        recs@.len() == rows.len(),
        records_match(recs@, rows, spec_schema_columns(), None),
        forall|k: int| 0 <= k < rows.len() ==> (#[trigger] rows[k]).1.len() == 5,
    ensures
        match r {
            Ok(objs) => objs@.len() == rows.len() && (forall|k: int|
                0 <= k < rows.len() ==> object_matches_row(#[trigger] objs@[k], rows[k])),
            Err(_) => exists|i: int| 0 <= i < rows.len() && !schema_row_ok(#[trigger] rows[i]),
        },
{
    let n = recs.len();
    let mut objects: Vec<ObjectSchema> = Vec::new();
    let mut i: usize = 0;
    while i < n
        invariant
            i <= n,
            n == recs@.len(),
            n == rows.len(),
            records_match(recs@, rows, spec_schema_columns(), None),
            forall|k: int| 0 <= k < rows.len() ==> (#[trigger] rows[k]).1.len() == 5,
            objects@.len() == i,
            forall|k: int| 0 <= k < i ==> object_matches_row(#[trigger] objects@[k], rows[k]),
        decreases n - i,
    {
        let rec = &recs[i];
        let ghost row = rows[i as int];
        proof {
            assert(rec@ == crate::cell::spec_rowid_pairs(
                spec_schema_columns(),
                row.1,
                row.0,
                None,
            ));
        }
        let obj: ObjectSchema = match build_object(rec, Ghost(row)) {
            Ok(o) => o,
            Err(e) => {
                proof {
                    assert(!schema_row_ok(rows[i as int]));
                }
                return Err(e);
            },
        };
        objects.push(obj);
        i = i + 1;
    }
    Ok(objects)
}

/// Build one schema object from its decoded row: the five values are
/// `type`, `name`, `tbl_name`, `rootpage` and `sql`, with the row-id
/// folded in behind them.
#[verifier::rlimit(100)]
#[verifier::spinoff_prover]
fn build_object(rec: &Record, Ghost(row): Ghost<RowV>) -> (r: Result<ObjectSchema, DbError>)
    requires
        row.1.len() == 5,
        rec@ == crate::cell::spec_rowid_pairs(spec_schema_columns(), row.1, row.0, None),
    ensures
        match r {
            Ok(o) => object_matches_row(o, row),
            Err(_) => !schema_row_ok(row),
        },
{
    let ghost vals = row.1;
    proof {
        assert(rec@.len() == 6);
        assert(rec.values@.len() == 6);
        assert(forall|k: int|
            0 <= k < 5 ==> rec@[k] == (spec_schema_columns()[k], #[trigger] vals[k]));
        assert(rec.values@[0].1@ == vals[0]);
        assert(rec.values@[1].1@ == vals[1]);
        assert(rec.values@[2].1@ == vals[2]);
        assert(rec.values@[3].1@ == vals[3]);
        assert(rec.values@[4].1@ == vals[4]);
    }
    let kind_t: Vec<u8> = vec![116u8, 97u8, 98u8, 108u8, 101u8];
    let kind_i: Vec<u8> = vec![105u8, 110u8, 100u8, 101u8, 120u8];
    let kind_v: Vec<u8> = vec![118u8, 105u8, 101u8, 119u8];
    let kind_g: Vec<u8> = vec![116u8, 114u8, 105u8, 103u8, 103u8, 101u8, 114u8];
    proof {
        assert(kind_t@ =~= kind_table());
        assert(kind_i@ =~= kind_index());
        assert(kind_v@ =~= kind_view());
        assert(kind_g@ =~= kind_trigger());
    }
    let kind_bytes = match &rec.values[0].1 {
        Value::Text(b) => b,
        _ => {
            return Err(DbError::MalformedRecord);
        },
    };
    if crate::bytes::bytes_eq(kind_bytes.as_slice(), kind_t.as_slice()) {
        let name_b = match &rec.values[1].1 {
            Value::Text(b) => vstd::slice::slice_to_vec(b.as_slice()),
            _ => {
                return Err(DbError::MalformedRecord);
            },
        };
        let name = match utf8_to_string(name_b) {
            Ok(s2) => s2,
            Err(_) => {
                return Err(DbError::MalformedRecord);
            },
        };
        let rp = match &rec.values[3].1 {
            Value::Integer(v) => *v,
            _ => {
                return Err(DbError::MalformedRecord);
            },
        };
        if rp < 0 || rp as u64 > usize::MAX as u64 {
            return Err(DbError::MalformedRecord);
        }
        let sql_b = match &rec.values[4].1 {
            Value::Text(b) => b,
            _ => {
                return Err(DbError::MalformedRecord);
            },
        };
        let cq = match parse_create_bytes(sql_b.as_slice()) {
            Ok(cq) => cq,
            Err(e) => {
                return Err(e);
            },
        };
        let sql = match utf8_to_string(vstd::slice::slice_to_vec(sql_b.as_slice())) {
            Ok(s2) => s2,
            Err(_) => {
                return Err(DbError::MalformedRecord);
            },
        };
        Ok(
            ObjectSchema::Table(
                TableSchema {
                    name,
                    root_page: rp as usize,
                    sql,
                    column_names: cq.column_names,
                    ipk: cq.ipk,
                },
            ),
        )
    } else if crate::bytes::bytes_eq(kind_bytes.as_slice(), kind_i.as_slice()) {
        let name_b = match &rec.values[1].1 {
            Value::Text(b) => vstd::slice::slice_to_vec(b.as_slice()),
            _ => {
                return Err(DbError::MalformedRecord);
            },
        };
        let name = match utf8_to_string(name_b) {
            Ok(s2) => s2,
            Err(_) => {
                return Err(DbError::MalformedRecord);
            },
        };
        let tbl_b = match &rec.values[2].1 {
            Value::Text(b) => vstd::slice::slice_to_vec(b.as_slice()),
            _ => {
                return Err(DbError::MalformedRecord);
            },
        };
        let table_name = match utf8_to_string(tbl_b) {
            Ok(s2) => s2,
            Err(_) => {
                return Err(DbError::MalformedRecord);
            },
        };
        let rp = match &rec.values[3].1 {
            Value::Integer(v) => *v,
            _ => {
                return Err(DbError::MalformedRecord);
            },
        };
        if rp < 0 || rp as u64 > usize::MAX as u64 {
            return Err(DbError::MalformedRecord);
        }
        let sql_b = match &rec.values[4].1 {
            Value::Text(b) => b,
            _ => {
                return Err(DbError::MalformedRecord);
            },
        };
        let cq = match parse_create_bytes(sql_b.as_slice()) {
            Ok(cq) => cq,
            Err(e) => {
                return Err(e);
            },
        };
        if cq.column_names.len() == 0 {
            return Err(DbError::ParseError);
        }
        let mut cols = cq.column_names;
        let column_name = match cols.pop() {
            Some(c) => {
                if cols.len() == 0 {
                    c
                } else {
                    cols[0].clone()
                }
            },
            None => {
                return Err(DbError::ParseError);
            },
        };
        let sql = match utf8_to_string(vstd::slice::slice_to_vec(sql_b.as_slice())) {
            Ok(s2) => s2,
            Err(_) => {
                return Err(DbError::MalformedRecord);
            },
        };
        Ok(
            ObjectSchema::Index(
                IndexSchema { name, table_name, root_page: rp as usize, sql, column_name },
            ),
        )
    } else if crate::bytes::bytes_eq(kind_bytes.as_slice(), kind_v.as_slice()) {
        Ok(ObjectSchema::View)
    } else if crate::bytes::bytes_eq(kind_bytes.as_slice(), kind_g.as_slice()) {
        Ok(ObjectSchema::Trigger)
    } else {
        Err(DbError::UnsupportedFeature)
    }
}

impl Database {
    /// Parse the first page of the database file, containing the header
    /// and the schema tree, and build the schema: tables and indexes carry
    /// their names, root pages, CREATE texts and column lists; views and
    /// triggers are recorded opaquely.
    #[verifier::rlimit(100)]
    #[verifier::spinoff_prover]
    pub fn parse_header_and_schema(input: &[u8]) -> (r: Result<Database, DbError>)
        ensures
            match r {
                Ok(db) => {
                    &&& spec_header(input@) matches Ok(hv) && db.header.page_size == hv.page_size
                        && db.header.end_page_reserved_bytes == hv.end_page_reserved_bytes
                        && db.header.size_in_pages == hv.size_in_pages
                    &&& db_wf(db)
                    &&& spec_table_rows(
                        input@,
                        db.header.page_size as int,
                        db.header.page_size as int - db.header.end_page_reserved_bytes as int,
                        5,
                        1,
                    ) matches Ok(rows) && db.schema.objects@.len() == rows.len() && (forall|i: int|
                        0 <= i < rows.len() ==> object_matches_row(
                            #[trigger] db.schema.objects@[i],
                            rows[i],
                        ))
                },
                Err(_) => true,
            },
            // success is owed: a good header, a decodable schema tree, and
            // rows that all build objects leave no room for failure
            (match spec_header(input@) {
                Ok(hv) => match spec_table_rows(
                    input@,
                    hv.page_size,
                    hv.page_size - hv.end_page_reserved_bytes,
                    5,
                    1,
                ) {
                    Ok(rows) => (forall|i: int|
                        0 <= i < rows.len() ==> schema_row_ok(#[trigger] rows[i])) ==> r is Ok,
                    Err(_) => true,
                },
                Err(_) => true,
            }),
            // failure comes only from the header, the schema tree, or a row
            // that cannot build an object
            (match r {
                Err(e) => match spec_header(input@) {
                    Err(e2) => e == e2,
                    Ok(hv) => match spec_table_rows(
                        input@,
                        hv.page_size,
                        hv.page_size - hv.end_page_reserved_bytes,
                        5,
                        1,
                    ) {
                        Err(e3) => e == e3,
                        Ok(rows) => exists|i: int|
                            0 <= i < rows.len() && !schema_row_ok(#[trigger] rows[i]),
                    },
                },
                Ok(_) => true,
            }),
    {
        let header = match Header::parse(input) {
            Ok(h) => h,
            Err(e) => {
                return Err(e);
            },
        };
        let psize = header.page_size;
        let usable = psize - header.end_page_reserved_bytes;
        let mut names: Vec<String> = Vec::new();
        names.push("type".to_owned());
        names.push("name".to_owned());
        names.push("tbl_name".to_owned());
        names.push("rootpage".to_owned());
        names.push("sql".to_owned());
        proof {
            reveal_strlit("type");
            reveal_strlit("name");
            reveal_strlit("tbl_name");
            reveal_strlit("rootpage");
            reveal_strlit("sql");
            broadcast use vstd::string::group_string_axioms;

            assert("type"@ =~= seq!['t', 'y', 'p', 'e']);
            assert("name"@ =~= seq!['n', 'a', 'm', 'e']);
            assert("tbl_name"@ =~= seq!['t', 'b', 'l', '_', 'n', 'a', 'm', 'e']);
            assert("rootpage"@ =~= seq!['r', 'o', 'o', 't', 'p', 'a', 'g', 'e']);
            assert("sql"@ =~= seq!['s', 'q', 'l']);
            assert(names@.map(|i, n: String| n@) =~= spec_schema_columns());
        }
        let fuel = compute_fuel(input.len(), psize);
        let mut recs: Vec<Record> = Vec::new();
        match scan_table(input, psize, usable, &names, None, 1, fuel, &mut recs) {
            Ok(_) => {},
            Err(e) => {
                proof {
                    assert(fuel as nat == spec_fuel(input@, psize as int));
                }
                return Err(e);
            },
        }
        let ghost rows = (match spec_table_rows(input@, psize as int, usable as int, 5, 1) {
            Ok(rows) => rows,
            Err(_) => arbitrary(),
        });
        proof {
            assert(fuel as nat == spec_fuel(input@, psize as int));
            assert(recs@.skip(0) =~= recs@);
            crate::btree::lemma_tree_vals_len(input@, psize as int, usable as int, 5, 1, fuel as nat);
        }
        let objects = match build_schema(&recs, Ghost(rows)) {
            Ok(objs) => objs,
            Err(e) => {
                return Err(e);
            },
        };
        Ok(Database { header, schema: Schema { objects } })
    }

    /// Scan the whole table rooted at `page_index`, yielding its records
    /// in ascending row-id order for a well-formed tree.
    pub fn get_full_table(&self, input: &[u8], page_index: usize) -> (r: Result<
        Vec<Record>,
        DbError,
    >)
        requires
            db_wf(*self),
        ensures
            ({
                let psize = self.header.page_size as int;
                let usable = psize - self.header.end_page_reserved_bytes as int;
                match r {
                    Ok(recs) => spec_table_by_root(self.schema.objects@, page_index as int)
                        matches Some(t) && spec_table_rows(
                        input@,
                        psize,
                        usable,
                        t.column_names@.len() as int,
                        page_index as int,
                    ) matches Ok(rows) && records_match(
                        recs@,
                        rows,
                        t.column_names@.map(|i, n: String| n@),
                        ipk_view(t.ipk),
                    ),
                    Err(e) => (spec_table_by_root(self.schema.objects@, page_index as int) is None
                        && e == DbError::NoSuchTable) || (spec_table_by_root(
                        self.schema.objects@,
                        page_index as int,
                    ) matches Some(t) && spec_table_rows(
                        input@,
                        psize,
                        usable,
                        t.column_names@.len() as int,
                        page_index as int,
                    ) matches Err(e2) && e == e2),
                }
            }),
    {
        let t = match self.schema.table_by_root(page_index) {
            Some(t) => t,
            None => {
                return Err(DbError::NoSuchTable);
            },
        };
        let psize = self.header.page_size;
        let usable = psize - self.header.end_page_reserved_bytes;
        let fuel = compute_fuel(input.len(), psize);
        let mut recs: Vec<Record> = Vec::new();
        match scan_table(input, psize, usable, &t.column_names, t.ipk, page_index, fuel, &mut recs)
        {
            Ok(_) => {},
            Err(e) => {
                return Err(e);
            },
        }
        proof {
            assert(fuel as nat == spec_fuel(input@, psize as int));
            assert(recs@.skip(0) =~= recs@);
        }
        Ok(recs)
    }

    /// Walk the index rooted at `page_index` and collect, in entry order,
    /// the row-id of every entry whose key equals `key`.
    pub fn search_index(&self, input: &[u8], page_index: usize, key_name: String, key: Value) -> (r:
        Result<Vec<i64>, DbError>)
        requires
            db_wf(*self),
        ensures
            ({
                let psize = self.header.page_size as int;
                let usable = psize - self.header.end_page_reserved_bytes as int;
                match r {
                    Ok(ids) => spec_index_by_root(self.schema.objects@, page_index as int)
                        matches Some(ix) && (key_name@ == ix.column_name@ && (spec_index_entries(
                        input@,
                        psize,
                        usable,
                        page_index as int,
                    ) matches Ok(entries) && ids@ == matching_ids(entries, key@))),
                    Err(e) => (spec_index_by_root(self.schema.objects@, page_index as int) is None
                        && e == DbError::NoSuchTable) || (spec_index_by_root(
                        self.schema.objects@,
                        page_index as int,
                    ) matches Some(ix) && (key_name@ != ix.column_name@ && e == DbError::NoSuchColumn
                        || key_name@ == ix.column_name@ && (spec_index_entries(
                        input@,
                        psize,
                        usable,
                        page_index as int,
                    ) matches Err(e2) && e == e2))),
                }
            }),
    {
        let ix = match self.schema.index_by_root(page_index) {
            Some(ix) => ix,
            None => {
                return Err(DbError::NoSuchTable);
            },
        };
        if !str_eq(key_name.as_str(), ix.column_name.as_str()) {
            return Err(DbError::NoSuchColumn);
        }
        let mut names: Vec<String> = Vec::new();
        names.push(ix.column_name.clone());
        names.push("row_id".to_owned());
        let psize = self.header.page_size;
        let usable = psize - self.header.end_page_reserved_bytes;
        let fuel = compute_fuel(input.len(), psize);
        let mut ids: Vec<i64> = Vec::new();
        match scan_index(input, psize, usable, &names, page_index, fuel, &key, &mut ids) {
            Ok(_) => {},
            Err(e) => {
                return Err(e);
            },
        }
        proof {
            assert(fuel as nat == spec_fuel(input@, psize as int));
            assert(ids@ =~= Seq::<i64>::empty() + matching_ids(
                (match spec_index_entries(input@, psize as int, usable as int, page_index as int) {
                    Ok(es) => es,
                    Err(_) => arbitrary(),
                }),
                key@,
            ));
        }
        Ok(ids)
    }

    /// Fetch, in ascending row-id order on a well-formed tree, exactly the
    /// rows of the table rooted at `page_index` whose row-id is among
    /// `row_ids`.  Subtrees whose keys rule every target out are skipped.
    pub fn get_by_row_ids(&self, input: &[u8], page_index: usize, row_ids: &Vec<i64>) -> (r: Result<
        Vec<Record>,
        DbError,
    >)
        requires
            db_wf(*self),
        ensures
            ({
                let psize = self.header.page_size as int;
                let usable = psize - self.header.end_page_reserved_bytes as int;
                match spec_table_by_root(self.schema.objects@, page_index as int) {
                    None => r == Err::<Vec<Record>, DbError>(DbError::NoSuchTable),
                    Some(t) => wf_table_tree(
                        input@,
                        psize,
                        usable,
                        t.column_names@.len() as int,
                        page_index as int,
                        spec_fuel(input@, psize),
                    ) ==> (r matches Ok(recs) && records_match(
                        recs@,
                        filter_ids(
                            subtree_rows(
                                input@,
                                psize,
                                usable,
                                t.column_names@.len() as int,
                                page_index as int,
                                spec_fuel(input@, psize),
                            ),
                            row_ids@,
                        ),
                        t.column_names@.map(|i, n: String| n@),
                        ipk_view(t.ipk),
                    )),
                }
            }),
    {
        let t = match self.schema.table_by_root(page_index) {
            Some(t) => t,
            None => {
                return Err(DbError::NoSuchTable);
            },
        };
        let psize = self.header.page_size;
        let usable = psize - self.header.end_page_reserved_bytes;
        let fuel = compute_fuel(input.len(), psize);
        let mut recs: Vec<Record> = Vec::new();
        match scan_targeted(
            input,
            psize,
            usable,
            &t.column_names,
            t.ipk,
            row_ids,
            page_index,
            fuel,
            &mut recs,
        ) {
            Ok(_) => {},
            Err(e) => {
                return Err(e);
            },
        }
        proof {
            assert(fuel as nat == spec_fuel(input@, psize as int));
            assert(recs@.skip(0) =~= recs@);
        }
        Ok(recs)
    }
}

} // verus!


