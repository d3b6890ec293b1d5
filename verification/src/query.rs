//! The query descriptor: the structured form of a recognized CREATE or
//! SELECT statement, and the recognizer that produces it.
//!
//! Two shapes are recognized.  CREATE: the parenthesised body after the
//! first `(` is split at commas, and each part's first whitespace-separated
//! token is a column name; a column whose next three tokens say `integer
//! primary key` (in any case) is the rowid column.  SELECT: a lowercased
//! keyword scan collects the projected columns up to `from` (a token
//! containing `count(` becomes the count projection), the table name, and
//! an optional `where <column> = '<text>'` filter; numeric filter literals
//! are not supported.

use crate::bytes::utf8_to_string;
use crate::error::DbError;
use crate::record::spec_lookup;
use crate::record::spec_value_eq;
use crate::record::Record;
use crate::record::SpecVal;
use crate::record::Value;
use vstd::prelude::*;
use vstd::string::StringSliceAdditionalSpecFns;
use vstd::utf8::encode_utf8;
use vstd::utf8::valid_utf8;

verus! {

/// A recognized statement.
#[derive(Debug)]
pub enum Query {
    Select(SelectQuery),
    Create(CreateQuery),
}

/// A recognized SELECT: the table, the projected columns, and zero or one
/// equality filter.
#[derive(Debug)]
pub struct SelectQuery {
    pub table_name: String,
    pub columns: Vec<Column>,
    pub filters: Vec<Filter>,
}

/// One projected column: a name, or the COUNT(*) projection.
#[derive(Debug)]
pub enum Column {
    Count,
    ColumnName(String),
}

/// One equality filter: the column and the value it must equal.
#[derive(Debug)]
pub struct Filter {
    pub column_name: String,
    pub column_value: Value,
}

/// A recognized CREATE: the ordered column names, and which of them, if
/// any, is the declared integer primary key.
#[derive(Debug)]
pub struct CreateQuery {
    pub column_names: Vec<String>,
    pub ipk: Option<usize>,
}

impl Column {
    /// The projected column's name, when it is a plain column.
    pub fn as_name(&self) -> (r: Option<&String>)
        ensures
            match self {
                Column::ColumnName(s) => r matches Some(n) && n@ == s@,
                _ => r is None,
            },
    {
        match self {
            Column::ColumnName(s) => Some(s),
            _ => None,
        }
    }
}

/// Is this byte an ASCII whitespace byte?
pub open spec fn spec_is_ws(b: u8) -> bool {
    b == 32 || b == 9 || b == 10 || b == 13 || b == 12 || b == 11
}

/// The byte with an ASCII capital folded to its small form.
pub open spec fn spec_lower(b: u8) -> u8 {
    if 65 <= b <= 90 {
        (b + 32) as u8
    } else {
        b
    }
}

/// A byte sequence with every ASCII capital folded.
pub open spec fn spec_lower_seq(s: Seq<u8>) -> Seq<u8> {
    s.map(|i, b: u8| spec_lower(b))
}

/// The first position at or after `from` holding byte `b`.
pub open spec fn spec_find_byte(s: Seq<u8>, b: u8, from: int) -> Option<int>
    decreases s.len() - from,
{
    if from < 0 || from >= s.len() {
        None
    } else if s[from] == b {
        Some(from)
    } else {
        spec_find_byte(s, b, from + 1)
    }
}

/// The position just past the token that starts at `pos`: the first
/// whitespace byte at or after it, or the end of the input.
pub open spec fn spec_token_end(s: Seq<u8>, pos: int) -> int
    decreases s.len() - pos,
{
    if pos < 0 || pos >= s.len() || spec_is_ws(s[pos]) {
        pos
    } else {
        spec_token_end(s, pos + 1)
    }
}

/// The whitespace-separated tokens from `pos` on.
pub open spec fn spec_tokens_from(s: Seq<u8>, pos: int) -> Seq<Seq<u8>>
    decreases s.len() - pos,
{
    if pos < 0 || pos >= s.len() {
        Seq::empty()
    } else if spec_is_ws(s[pos]) {
        spec_tokens_from(s, pos + 1)
    } else {
        let e = spec_token_end(s, pos);
        if e <= pos || e > s.len() {
            Seq::empty()
        } else {
            seq![s.subrange(pos, e)] + spec_tokens_from(s, e)
        }
    }
}

/// The parts of `s` split at every comma.
pub open spec fn spec_split_commas(s: Seq<u8>) -> Seq<Seq<u8>>
    decreases s.len(),
{
    match spec_find_byte(s, 44, 0) {
        None => seq![s],
        Some(i) => {
            if 0 <= i < s.len() {
                seq![s.subrange(0, i)] + spec_split_commas(s.subrange(i + 1, s.len() as int))
            } else {
                seq![s]
            }
        },
    }
}

/// Each part's first token, or an error for a part with none.
pub open spec fn spec_part_names(parts: Seq<Seq<u8>>) -> Result<Seq<Seq<u8>>, DbError>
    decreases parts.len(),
{
    if parts.len() == 0 {
        Ok(Seq::empty())
    } else {
        let ts = spec_tokens_from(parts[0], 0);
        if ts.len() == 0 {
            Err(DbError::ParseError)
        } else {
            match spec_part_names(parts.drop_first()) {
                Err(e) => Err(e),
                Ok(rest) => Ok(seq![ts[0]] + rest),
            }
        }
    }
}

/// The lowered bytes of `integer`.
pub open spec fn kw_integer() -> Seq<u8> {
    seq![105u8, 110u8, 116u8, 101u8, 103u8, 101u8, 114u8]
}

/// The lowered bytes of `primary`.
pub open spec fn kw_primary() -> Seq<u8> {
    seq![112u8, 114u8, 105u8, 109u8, 97u8, 114u8, 121u8]
}

/// The lowered bytes of `key`.
pub open spec fn kw_key() -> Seq<u8> {
    seq![107u8, 101u8, 121u8]
}

/// The lowered bytes of `select`.
pub open spec fn kw_select_bytes() -> Seq<u8> {
    seq![115u8, 101u8, 108u8, 101u8, 99u8, 116u8]
}

/// Does this column part declare the integer primary key: its second,
/// third and fourth tokens say `integer primary key` in any case?
pub open spec fn spec_part_is_ipk(part: Seq<u8>) -> bool {
    let ts = spec_tokens_from(spec_lower_seq(part), 0);
    ts.len() >= 4 && ts[1] == kw_integer() && ts[2] == kw_primary() && ts[3] == kw_key()
}

/// The first part, from `i` on, that declares the integer primary key.
pub open spec fn spec_ipk_of(parts: Seq<Seq<u8>>, i: int) -> Option<int>
    decreases parts.len() - i,
{
    if i < 0 || i >= parts.len() {
        None
    } else if spec_part_is_ipk(parts[i]) {
        Some(i)
    } else {
        spec_ipk_of(parts, i + 1)
    }
}

/// The column-name byte sequences of a CREATE statement: the parenthesised
/// body, which must close at the statement's last byte, split at commas,
/// each part contributing its first token.
pub open spec fn spec_create_columns(sql: Seq<u8>) -> Result<Seq<Seq<u8>>, DbError> {
    match spec_find_byte(sql, 40, 0) {
        None => Err(DbError::ParseError),
        Some(i) => {
            let rest = sql.subrange(i + 1, sql.len() as int);
            if rest.len() == 0 || rest[rest.len() - 1] != 41 {
                Err(DbError::ParseError)
            } else {
                spec_part_names(spec_split_commas(rest.subrange(0, rest.len() - 1)))
            }
        },
    }
}

/// The declared integer-primary-key column of a CREATE statement, if any.
pub open spec fn spec_create_ipk(sql: Seq<u8>) -> Option<int> {
    match spec_find_byte(sql, 40, 0) {
        None => None,
        Some(i) => {
            let rest = sql.subrange(i + 1, sql.len() as int);
            if rest.len() == 0 || rest[rest.len() - 1] != 41 {
                None
            } else {
                spec_ipk_of(spec_split_commas(rest.subrange(0, rest.len() - 1)), 0)
            }
        },
    }
}

/// The first position at or after `from` holding byte `b`.
fn find_byte(s: &[u8], b: u8, from: usize) -> (r: Option<usize>)
    ensures
        match r {
            Some(i) => spec_find_byte(s@, b, from as int) == Some(i as int) && from <= i
                < s@.len(),
            None => spec_find_byte(s@, b, from as int) is None,
        },
{
    let n = s.len();
    let mut i = from;
    while i < n
        invariant
            from <= i,
            n == s@.len(),
            spec_find_byte(s@, b, from as int) == spec_find_byte(s@, b, i as int),
        decreases n - i,
    {
        if s[i] == b {
            return Some(i);
        }
        i = i + 1;
    }
    None
}

/// The scan for a token's end stays inside the input.
proof fn lemma_token_end_bounds(s: Seq<u8>, pos: int)
    requires
        0 <= pos <= s.len(),
    ensures
        pos <= spec_token_end(s, pos) <= s.len(),
    decreases s.len() - pos,
{
    if pos < s.len() && !spec_is_ws(s[pos]) {
        lemma_token_end_bounds(s, pos + 1);
    }
}

/// The position just past the token that starts at `pos`.
fn token_end(s: &[u8], pos: usize) -> (r: usize)
    requires
        pos <= s@.len(),
    ensures
        r as int == spec_token_end(s@, pos as int),
        pos <= r <= s@.len(),
{
    let n = s.len();
    let mut i = pos;
    while i < n
        invariant
            pos <= i <= n,
            n == s@.len(),
            spec_token_end(s@, pos as int) == spec_token_end(s@, i as int),
        decreases n - i,
    {
        let b = s[i];
        if b == 32 || b == 9 || b == 10 || b == 13 || b == 12 || b == 11 {
            return i;
        }
        i = i + 1;
    }
    n
}

/// The whitespace-separated tokens of `s`, each an owned byte vector.
fn tokenize(s: &[u8]) -> (r: Vec<Vec<u8>>)
    ensures
        r@.len() == spec_tokens_from(s@, 0).len(),
        forall|k: int|
            0 <= k < r@.len() ==> (#[trigger] r@[k])@ == spec_tokens_from(s@, 0)[k],
{
    let n = s.len();
    let mut out: Vec<Vec<u8>> = Vec::new();
    let mut pos: usize = 0;
    let ghost all = spec_tokens_from(s@, 0);
    proof {
        assert(spec_tokens_from(s@, 0) =~= Seq::<Seq<u8>>::empty() + spec_tokens_from(s@, 0));
    }
    while pos < n
        invariant
            pos <= n,
            n == s@.len(),
            all == spec_tokens_from(s@, 0),
            all =~= out@.map(|k, v: Vec<u8>| v@) + spec_tokens_from(s@, pos as int),
        decreases n - pos,
    {
        let b = s[pos];
        if b == 32 || b == 9 || b == 10 || b == 13 || b == 12 || b == 11 {
            pos = pos + 1;
        } else {
            proof {
                lemma_token_end_bounds(s@, pos as int + 1);
            }
            let e = token_end(s, pos);
            assert(e > pos);
            let tok = vstd::slice::slice_to_vec(vstd::slice::slice_subrange(s, pos, e));
            let ghost out_old = out@;
            out.push(tok);
            proof {
                assert(out@.map(|k, v: Vec<u8>| v@) =~= out_old.map(|k, v: Vec<u8>| v@).push(
                    s@.subrange(pos as int, e as int),
                ));
                assert(all =~= out@.map(|k, v: Vec<u8>| v@) + spec_tokens_from(s@, e as int));
            }
            pos = e;
        }
    }
    proof {
        assert(spec_tokens_from(s@, n as int) =~= Seq::<Seq<u8>>::empty());
        assert(all =~= out@.map(|k, v: Vec<u8>| v@));
    }
    out
}

/// Fold every ASCII capital in place.
fn lower_bytes(s: &[u8]) -> (r: Vec<u8>)
    ensures
        r@ == spec_lower_seq(s@),
{
    let n = s.len();
    let mut out: Vec<u8> = Vec::new();
    let mut i: usize = 0;
    while i < n
        invariant
            i <= n,
            n == s@.len(),
            out@.len() == i,
            forall|j: int| 0 <= j < i ==> #[trigger] out@[j] == spec_lower(s@[j]),
        decreases n - i,
    {
        let b = s[i];
        if 65 <= b && b <= 90 {
            out.push(b + 32);
        } else {
            out.push(b);
        }
        i = i + 1;
    }
    proof {
        assert(out@ =~= spec_lower_seq(s@));
    }
    out
}

/// Appending a part appends its first token, or trips the error.
proof fn lemma_part_names_snoc(parts: Seq<Seq<u8>>, p: Seq<u8>)
    ensures
        spec_part_names(parts.push(p)) == (match spec_part_names(parts) {
            Err(e) => Err::<Seq<Seq<u8>>, DbError>(e),
            Ok(ns) => {
                let ts = spec_tokens_from(p, 0);
                if ts.len() == 0 {
                    Err(DbError::ParseError)
                } else {
                    Ok(ns.push(ts[0]))
                }
            },
        }),
    decreases parts.len(),
{
    if parts.len() == 0 {
        assert(parts.push(p).drop_first() =~= Seq::<Seq<u8>>::empty());
        assert(parts.push(p)[0] == p);
        assert(spec_part_names(Seq::<Seq<u8>>::empty()) == Ok::<Seq<Seq<u8>>, DbError>(
            Seq::empty(),
        ));
        let ts = spec_tokens_from(p, 0);
        if ts.len() > 0 {
            assert(spec_part_names(parts.push(p)) == Ok::<Seq<Seq<u8>>, DbError>(
                seq![ts[0]] + Seq::<Seq<u8>>::empty(),
            ));
            assert(seq![ts[0]] + Seq::<Seq<u8>>::empty() =~= Seq::<Seq<u8>>::empty().push(ts[0]));
        }
    } else {
        assert(parts.push(p).drop_first() =~= parts.drop_first().push(p));
        assert(parts.push(p)[0] == parts[0]);
        lemma_part_names_snoc(parts.drop_first(), p);
        let ts0 = spec_tokens_from(parts[0], 0);
        if ts0.len() > 0 {
            match spec_part_names(parts.drop_first()) {
                Ok(rest) => {
                    let ts = spec_tokens_from(p, 0);
                    if ts.len() > 0 {
                        assert(seq![ts0[0]] + rest.push(ts[0]) =~= (seq![ts0[0]] + rest).push(
                            ts[0],
                        ));
                    }
                },
                Err(_) => {},
            }
        }
    }
}

/// Appending a part keeps an earlier primary-key hit, or contributes one.
proof fn lemma_ipk_snoc(parts: Seq<Seq<u8>>, p: Seq<u8>, i: int)
    requires
        0 <= i <= parts.len(),
    ensures
        spec_ipk_of(parts.push(p), i) == (match spec_ipk_of(parts, i) {
            Some(j) => Some(j),
            None => {
                if spec_part_is_ipk(p) {
                    Some(parts.len() as int)
                } else {
                    None
                }
            },
        }),
    decreases parts.len() - i,
{
    if i < parts.len() {
        assert(parts.push(p)[i] == parts[i]);
        lemma_ipk_snoc(parts, p, i + 1);
    } else {
        assert(parts.push(p)[i] == p);
        if !spec_part_is_ipk(p) {
            assert(spec_ipk_of(parts.push(p), i + 1) is None);
        }
    }
}

/// A CREATE text the recognizer accepts: its column list parses and every
/// column name is valid UTF-8.
pub open spec fn create_ok(sql: Seq<u8>) -> bool {
    spec_create_columns(sql) matches Ok(names) && (forall|k: int|
        0 <= k < names.len() ==> valid_utf8(#[trigger] names[k]))
}

/// Each accepted part contributes exactly its first token, at its index.
proof fn lemma_part_names_index(parts: Seq<Seq<u8>>, idx: int)
    requires
        0 <= idx < parts.len(),
        spec_part_names(parts) is Ok,
    ensures
        spec_part_names(parts) matches Ok(ns) && ns.len() == parts.len() && spec_tokens_from(
            parts[idx],
            0,
        ).len() > 0 && ns[idx] == spec_tokens_from(parts[idx], 0)[0],
    decreases idx,
{
    lemma_part_names_len(parts);
    if idx > 0 {
        assert(parts.drop_first()[idx - 1] == parts[idx]);
        lemma_part_names_index(parts.drop_first(), idx - 1);
    }
}

/// An accepted list has one name per part.
proof fn lemma_part_names_len(parts: Seq<Seq<u8>>)
    ensures
        spec_part_names(parts) matches Ok(ns) ==> ns.len() == parts.len(),
    decreases parts.len(),
{
    if parts.len() > 0 {
        lemma_part_names_len(parts.drop_first());
    }
}

/// A token-free part anywhere makes the whole list a parse error.
proof fn lemma_part_names_err(parts: Seq<Seq<u8>>, idx: int)
    requires
        0 <= idx < parts.len(),
        spec_tokens_from(parts[idx], 0).len() == 0,
    ensures
        spec_part_names(parts) == Err::<Seq<Seq<u8>>, DbError>(DbError::ParseError),
    decreases idx,
{
    if idx == 0 {
    } else {
        if spec_tokens_from(parts[0], 0).len() > 0 {
            assert(parts.drop_first()[idx - 1] == parts[idx]);
            lemma_part_names_err(parts.drop_first(), idx - 1);
        }
    }
}

/// Is the byte vector exactly the given keyword?
fn vec_is_kw(v: &Vec<u8>, kw: &Vec<u8>) -> (r: bool)
    ensures
        r == (v@ == kw@),
{
    crate::bytes::bytes_eq(v.as_slice(), kw.as_slice())
}

/// Parse the body of a CREATE statement into its ordered column names and
/// the declared integer-primary-key column, if any.
#[verifier::rlimit(100)]
#[verifier::spinoff_prover]
pub(crate) fn parse_create_bytes(sql: &[u8]) -> (r: Result<CreateQuery, DbError>)
    ensures
        match r {
            Ok(cq) => create_ok(sql@) && (match spec_create_columns(sql@) {
                Ok(names) => {
                    &&& cq.column_names@.len() == names.len()
                    &&& forall|k: int|
                        0 <= k < names.len() ==> encode_utf8((#[trigger] cq.column_names@[k])@)
                            == names[k]
                    &&& cq.ipk == (match spec_create_ipk(sql@) {
                        Some(i) => Some(i as usize),
                        None => None,
                    })
                },
                Err(_) => false,
            }),
            Err(e) => e == DbError::ParseError && !create_ok(sql@),
        },
{
    let kw_int: Vec<u8> = vec![105u8, 110u8, 116u8, 101u8, 103u8, 101u8, 114u8];
    let kw_pri: Vec<u8> = vec![112u8, 114u8, 105u8, 109u8, 97u8, 114u8, 121u8];
    let kw_k: Vec<u8> = vec![107u8, 101u8, 121u8];
    proof {
        assert(kw_int@ =~= kw_integer());
        assert(kw_pri@ =~= kw_primary());
        assert(kw_k@ =~= kw_key());
    }
    let open = match find_byte(sql, 40, 0) {
        Some(i) => i,
        None => {
            return Err(DbError::ParseError);
        },
    };
    let n = sql.len();
    let rest = vstd::slice::slice_subrange(sql, open + 1, n);
    let rn = rest.len();
    if rn == 0 || rest[rn - 1] != 41 {
        return Err(DbError::ParseError);
    }
    let body = vstd::slice::slice_subrange(rest, 0, rn - 1);
    let ghost body_s = body@;
    let ghost parts = spec_split_commas(body_s);
    let bn = body.len();
    let mut names: Vec<String> = Vec::new();
    let mut ipk: Option<usize> = None;
    let mut start: usize = 0;
    let mut part_idx: usize = 0;
    let mut done = false;
    proof {
        assert(sql@.subrange(open as int + 1, n as int) =~= rest@);
        assert(rest@.subrange(0, rn as int - 1) =~= body_s);
        assert(spec_create_columns(sql@) == spec_part_names(parts));
        assert(spec_create_ipk(sql@) == spec_ipk_of(parts, 0));
        assert(parts.take(0) =~= Seq::<Seq<u8>>::empty());
        assert(spec_part_names(Seq::<Seq<u8>>::empty()) == Ok::<Seq<Seq<u8>>, DbError>(
            Seq::empty(),
        ));
        assert(body_s.subrange(0, bn as int) =~= body_s);
        assert(parts.skip(0) =~= parts);
    }
    while !done
        invariant
            start <= bn,
            bn == body_s.len(),
            body_s == body@,
            parts == spec_split_commas(body_s),
            part_idx == names@.len(),
            part_idx <= parts.len(),
            kw_int@ == kw_integer(),
            kw_pri@ == kw_primary(),
            kw_k@ == kw_key(),
            spec_create_columns(sql@) == spec_part_names(parts),
            spec_create_ipk(sql@) == spec_ipk_of(parts, 0),
            !done ==> spec_split_commas(body_s.subrange(start as int, bn as int)) =~= parts.skip(
                part_idx as int,
            ),
            done ==> part_idx == parts.len(),
            match spec_part_names(parts.take(part_idx as int)) {
                Ok(ns) => {
                    &&& names@.len() == ns.len()
                    &&& forall|k: int|
                        0 <= k < ns.len() ==> encode_utf8((#[trigger] names@[k])@) == ns[k]
                },
                Err(_) => false,
            },
            ipk == (match spec_ipk_of(parts.take(part_idx as int), 0) {
                Some(i) => Some(i as usize),
                None => None,
            }),
        decreases bn - start + (if done {
            0int
        } else {
            1int
        }),
    {
        let ghost sub = body_s.subrange(start as int, bn as int);
        let sub_slice = vstd::slice::slice_subrange(body, start, bn);
        let (part, next, was_last) = match find_byte(sub_slice, 44, 0) {
            Some(c) => {
                proof {
                    assert(sub.subrange(0, c as int) =~= body_s.subrange(
                        start as int,
                        start as int + c as int,
                    ));
                }
                (vstd::slice::slice_subrange(sub_slice, 0, c), start + c + 1, false)
            },
            None => (sub_slice, bn, true),
        };
        let ghost part_s = part@;
        proof {
            // one unfolding of the comma split of the remaining bytes
            match spec_find_byte(sub, 44, 0) {
                Some(c) => {
                    assert(spec_split_commas(sub) == seq![sub.subrange(0, c)] + spec_split_commas(
                        sub.subrange(c + 1, sub.len() as int),
                    ));
                    assert(parts.skip(part_idx as int)[0] == part_s);
                    assert(parts[part_idx as int] == part_s);
                },
                None => {
                    assert(spec_split_commas(sub) == seq![sub]);
                    assert(parts.skip(part_idx as int)[0] == part_s);
                    assert(parts[part_idx as int] == part_s);
                    assert(parts.skip(part_idx as int).len() == 1);
                },
            }
        }
        let toks = tokenize(part);
        if toks.len() == 0 {
            proof {
                lemma_part_names_err(parts, part_idx as int);
            }
            return Err(DbError::ParseError);
        }
        let name_bytes = vstd::slice::slice_to_vec(toks[0].as_slice());
        let name = match utf8_to_string(name_bytes) {
            Ok(s2) => s2,
            Err(_) => {
                proof {
                    if spec_part_names(parts) is Ok {
                        lemma_part_names_index(parts, part_idx as int);
                    }
                }
                return Err(DbError::ParseError);
            },
        };
        let lowered = lower_bytes(part);
        let lt = tokenize(lowered.as_slice());
        let is_ipk = lt.len() >= 4 && vec_is_kw(&lt[1], &kw_int) && vec_is_kw(&lt[2], &kw_pri)
            && vec_is_kw(&lt[3], &kw_k);
        assert(is_ipk == spec_part_is_ipk(part_s));
        if is_ipk && ipk.is_none() {
            ipk = Some(part_idx);
        }
        let ghost names_old = names@;
        names.push(name);
        proof {
            lemma_part_names_snoc(parts.take(part_idx as int), part_s);
            lemma_ipk_snoc(parts.take(part_idx as int), part_s, 0);
            assert(parts.take(part_idx as int).push(part_s) =~= parts.take(part_idx as int + 1));
            match spec_part_names(parts.take(part_idx as int + 1)) {
                Ok(ns) => {
                    assert(names@.len() == ns.len());
                    assert(encode_utf8(name@) == spec_tokens_from(part_s, 0)[0]);
                    assert(forall|k: int|
                        0 <= k < ns.len() ==> encode_utf8((#[trigger] names@[k])@) == ns[k]);
                },
                Err(_) => {
                    assert(false);
                },
            }
        }
        part_idx = names.len();
        if was_last {
            done = true;
            proof {
                assert(parts.skip(part_idx as int - 1).len() == 1);
                assert(part_idx == parts.len());
            }
        } else {
            proof {
                match spec_find_byte(sub, 44, 0) {
                    Some(c) => {
                        assert(sub.subrange(c + 1, sub.len() as int) =~= body_s.subrange(
                            next as int,
                            bn as int,
                        ));
                        assert(spec_split_commas(body_s.subrange(next as int, bn as int))
                            =~= parts.skip(part_idx as int)) by {
                            assert(parts.skip(part_idx as int - 1).drop_first() =~= parts.skip(
                                part_idx as int,
                            ));
                        }
                    },
                    None => {
                        assert(false);
                    },
                }
            }
        }
        start = next;
    }
    proof {
        assert(parts.take(parts.len() as int) =~= parts);
        broadcast use vstd::utf8::encode_utf8_valid_utf8;

        match spec_part_names(parts) {
            Ok(ns) => {
                assert(forall|k: int| 0 <= k < ns.len() ==> valid_utf8(#[trigger] ns[k])) by {
                    assert(forall|k: int|
                        0 <= k < ns.len() ==> #[trigger] ns[k] == encode_utf8(names@[k]@));
                }
            },
            Err(_) => {
                assert(false);
            },
        }
    }
    Ok(CreateQuery { column_names: names, ipk })
}


/// The projected values of one row: each named column's first value, in
/// projection order; count projections contribute nothing here.  A name
/// the row does not carry is an error.
pub open spec fn spec_project_row(rec: Seq<(Seq<char>, SpecVal)>, cols: Seq<Column>) -> Result<
    Seq<SpecVal>,
    DbError,
>
    decreases cols.len(),
{
    if cols.len() == 0 {
        Ok(Seq::empty())
    } else {
        match cols[0] {
            Column::Count => spec_project_row(rec, cols.drop_first()),
            Column::ColumnName(c) => match spec_lookup(rec, c@) {
                None => Err(DbError::NoSuchColumn),
                Some(v) => match spec_project_row(rec, cols.drop_first()) {
                    Err(e) => Err(e),
                    Ok(rest) => Ok(seq![v] + rest),
                },
            },
        }
    }
}

/// Does the row pass every filter, by value equality?  A filter on a name
/// the row does not carry is an error.
pub open spec fn spec_row_passes(rec: Seq<(Seq<char>, SpecVal)>, filters: Seq<Filter>) -> Result<
    bool,
    DbError,
>
    decreases filters.len(),
{
    if filters.len() == 0 {
        Ok(true)
    } else {
        match spec_lookup(rec, filters[0].column_name@) {
            None => Err(DbError::NoSuchColumn),
            Some(v) => {
                if !spec_value_eq(v, filters[0].column_value@) {
                    Ok(false)
                } else {
                    spec_row_passes(rec, filters.drop_first())
                }
            },
        }
    }
}

/// The projected rows of the listed records, in order: when
/// `post_filter`, a record that fails a filter is dropped.
pub open spec fn spec_project_records(
    recs: Seq<Seq<(Seq<char>, SpecVal)>>,
    cols: Seq<Column>,
    filters: Seq<Filter>,
    post_filter: bool,
) -> Result<Seq<Seq<SpecVal>>, DbError>
    decreases recs.len(),
{
    if recs.len() == 0 {
        Ok(Seq::empty())
    } else {
        let keep = if post_filter {
            spec_row_passes(recs[0], filters)
        } else {
            Ok(true)
        };
        match keep {
            Err(e) => Err(e),
            Ok(false) => spec_project_records(recs.drop_first(), cols, filters, post_filter),
            Ok(true) => match spec_project_row(recs[0], cols) {
                Err(e) => Err(e),
                Ok(row) => match spec_project_records(
                    recs.drop_first(),
                    cols,
                    filters,
                    post_filter,
                ) {
                    Err(e) => Err(e),
                    Ok(rest) => Ok(seq![row] + rest),
                },
            },
        }
    }
}

/// The projected values of one record.
fn project_one(rec: &Record, cols: &Vec<Column>) -> (r: Result<Vec<Value>, DbError>)
    ensures
        match r {
            Ok(row) => spec_project_row(rec@, cols@) matches Ok(vs) && row@.len() == vs.len() && (
            forall|j: int| 0 <= j < vs.len() ==> (#[trigger] row@[j])@ == vs[j]),
            Err(e) => spec_project_row(rec@, cols@) matches Err(e2) && e == e2,
        },
{
    let n = cols.len();
    let mut out: Vec<Value> = Vec::new();
    let mut i: usize = 0;
    proof {
        assert(cols@.skip(0) =~= cols@);
    }
    while i < n
        invariant
            i <= n,
            n == cols@.len(),
            match spec_project_row(rec@, cols@.skip(i as int)) {
                Ok(rest) => spec_project_row(rec@, cols@) matches Ok(vs) && out@.len() + rest.len()
                    == vs.len() && (forall|j: int|
                    0 <= j < out@.len() ==> (#[trigger] out@[j])@ == vs[j]) && (forall|j: int|
                    0 <= j < rest.len() ==> vs[out@.len() + j] == #[trigger] rest[j]),
                Err(e) => spec_project_row(rec@, cols@) matches Err(e2) && e2 == e,
            },
        decreases n - i,
    {
        proof {
            assert(cols@.skip(i as int)[0] == cols@[i as int]);
            assert(cols@.skip(i as int).drop_first() =~= cols@.skip(i as int + 1));
        }
        let ghost out_old = out@;
        match &cols[i] {
            Column::Count => {},
            Column::ColumnName(c) => {
                match rec.get(c.as_str()) {
                    Some(v) => {
                        out.push(v.dup());
                    },
                    None => {
                        return Err(DbError::NoSuchColumn);
                    },
                }
            },
        }
        proof {
            match cols@[i as int] {
                Column::Count => {
                    assert(spec_project_row(rec@, cols@.skip(i as int)) == spec_project_row(
                        rec@,
                        cols@.skip(i as int + 1),
                    ));
                },
                Column::ColumnName(c) => {
                    match spec_lookup(rec@, c@) {
                        Some(v) => {
                            match spec_project_row(rec@, cols@.skip(i as int + 1)) {
                                Ok(rest2) => {
                                    assert(spec_project_row(rec@, cols@.skip(i as int)) == Ok::<
                                        Seq<SpecVal>,
                                        DbError,
                                    >(seq![v] + rest2));
                                    assert((seq![v] + rest2)[0] == v);
                                    assert(forall|j: int|
                                        0 <= j < rest2.len() ==> (seq![v] + rest2)[j + 1]
                                            == #[trigger] rest2[j]);
                                    assert(out@[out_old.len() as int]@ == v);
                                },
                                Err(_) => {},
                            }
                        },
                        None => {},
                    }
                },
            }
        }
        i = i + 1;
    }
    proof {
        assert(cols@.skip(n as int) =~= Seq::<Column>::empty());
    }
    Ok(out)
}

/// Does the record pass every filter?
fn passes_filters(rec: &Record, filters: &Vec<Filter>) -> (r: Result<bool, DbError>)
    ensures
        match r {
            Ok(b) => spec_row_passes(rec@, filters@) == Ok::<bool, DbError>(b),
            Err(e) => spec_row_passes(rec@, filters@) matches Err(e2) && e == e2,
        },
{
    let n = filters.len();
    let mut i: usize = 0;
    proof {
        assert(filters@.skip(0) =~= filters@);
    }
    while i < n
        invariant
            i <= n,
            n == filters@.len(),
            spec_row_passes(rec@, filters@) == spec_row_passes(rec@, filters@.skip(i as int)),
        decreases n - i,
    {
        proof {
            assert(filters@.skip(i as int)[0] == filters@[i as int]);
            assert(filters@.skip(i as int).drop_first() =~= filters@.skip(i as int + 1));
        }
        let f = &filters[i];
        match rec.get(f.column_name.as_str()) {
            Some(v) => {
                if !(*v == f.column_value) {
                    return Ok(false);
                }
            },
            None => {
                return Err(DbError::NoSuchColumn);
            },
        }
        i = i + 1;
    }
    proof {
        assert(filters@.skip(n as int) =~= Seq::<Filter>::empty());
    }
    Ok(true)
}

/// The view of a list of projected rows.
pub open spec fn rows_view(o: Seq<Vec<Value>>) -> Seq<Seq<SpecVal>> {
    o.map(|i, v: Vec<Value>| v@.map(|j, x: Value| x@))
}

/// Project the records into value rows, dropping, when `post_filter`,
/// each record that fails a filter.
pub fn project_records(
    records: &Vec<Record>,
    cols: &Vec<Column>,
    filters: &Vec<Filter>,
    post_filter: bool,
) -> (r: Result<Vec<Vec<Value>>, DbError>)
    ensures
        match r {
            Ok(o) => spec_project_records(
                records@.map(|i, rec: Record| rec@),
                cols@,
                filters@,
                post_filter,
            ) == Ok::<Seq<Seq<SpecVal>>, DbError>(rows_view(o@)),
            Err(e) => spec_project_records(
                records@.map(|i, rec: Record| rec@),
                cols@,
                filters@,
                post_filter,
            ) matches Err(e2) && e == e2,
        },
{
    let ghost recs = records@.map(|i, rec: Record| rec@);
    let n = records.len();
    let mut out: Vec<Vec<Value>> = Vec::new();
    let mut i: usize = 0;
    proof {
        assert(recs.skip(0) =~= recs);
        match spec_project_records(recs, cols@, filters@, post_filter) {
            Ok(rest) => {
                assert(Seq::<Seq<SpecVal>>::empty() + rest =~= rest);
            },
            Err(_) => {},
        }
        assert(rows_view(out@) =~= Seq::<Seq<SpecVal>>::empty());
    }
    while i < n
        invariant
            i <= n,
            n == records@.len(),
            recs == records@.map(|i2, rec: Record| rec@),
            recs.len() == n,
            match spec_project_records(recs.skip(i as int), cols@, filters@, post_filter) {
                Ok(rest) => spec_project_records(recs, cols@, filters@, post_filter) == Ok::<
                    Seq<Seq<SpecVal>>,
                    DbError,
                >(rows_view(out@) + rest),
                Err(e) => spec_project_records(recs, cols@, filters@, post_filter) matches Err(e2)
                    && e == e2,
            },
        decreases n - i,
    {
        proof {
            assert(recs.skip(i as int)[0] == recs[i as int]);
            assert(recs.skip(i as int).drop_first() =~= recs.skip(i as int + 1));
            assert(records@[i as int]@ == recs[i as int]);
        }
        let rec = &records[i];
        let keep = if post_filter {
            match passes_filters(rec, filters) {
                Ok(b) => b,
                Err(e) => {
                    return Err(e);
                },
            }
        } else {
            true
        };
        if keep {
            let row = match project_one(rec, cols) {
                Ok(row) => row,
                Err(e) => {
                    return Err(e);
                },
            };
            let ghost out_old = out@;
            let ghost rowv = row@;
            out.push(row);
            proof {
                match spec_project_row(recs[i as int], cols@) {
                    Ok(vs) => {
                        assert(rowv.map(|j, x: Value| x@) =~= vs);
                        assert(rows_view(out@) =~= rows_view(out_old).push(vs));
                        match spec_project_records(
                            recs.skip(i as int + 1),
                            cols@,
                            filters@,
                            post_filter,
                        ) {
                            Ok(rest) => {
                                assert(rows_view(out_old) + (seq![vs] + rest) =~= rows_view(out@)
                                    + rest);
                            },
                            Err(_) => {},
                        }
                    },
                    Err(_) => {
                        assert(false);
                    },
                }
            }
        }
        i = i + 1;
    }
    proof {
        assert(recs.skip(n as int) =~= Seq::<Seq<(Seq<char>, SpecVal)>>::empty());
        match spec_project_records(recs, cols@, filters@, post_filter) {
            Ok(vs) => {
                assert(rows_view(out@) + Seq::<Seq<SpecVal>>::empty() =~= rows_view(out@));
            },
            Err(_) => {},
        }
    }
    Ok(out)
}



/// The lowered bytes of `create`.
pub open spec fn kw_create_bytes() -> Seq<u8> {
    seq![99u8, 114u8, 101u8, 97u8, 116u8, 101u8]
}

/// The lowered bytes of `from`.
pub open spec fn kw_from_bytes() -> Seq<u8> {
    seq![102u8, 114u8, 111u8, 109u8]
}

/// The lowered bytes of `where`.
pub open spec fn kw_where_bytes() -> Seq<u8> {
    seq![119u8, 104u8, 101u8, 114u8, 101u8]
}

/// The lowered bytes of `count(`.
pub open spec fn kw_count_bytes() -> Seq<u8> {
    seq![99u8, 111u8, 117u8, 110u8, 116u8, 40u8]
}

/// One recognized projection: the count projection, or a column name's
/// bytes with the comma punctuation stripped.
pub enum ColV {
    Count,
    Name(Seq<u8>),
}

/// The model of a recognized SELECT: the table-name token, the
/// projections, and, when a filter is given, its column token and the
/// joined text literal.
pub struct SelectV {
    pub table: Seq<u8>,
    pub cols: Seq<ColV>,
    pub filter: Option<(Seq<u8>, Seq<u8>)>,
}

/// Does `hay` hold `needle` as a contiguous run?
pub open spec fn spec_has_sub(hay: Seq<u8>, needle: Seq<u8>) -> bool {
    exists|i: int|
        0 <= i && i + needle.len() <= hay.len() && #[trigger] hay.subrange(
            i,
            i + needle.len() as int,
        ) == needle
}

/// The first position at or after `i` whose byte differs from `b`.
pub open spec fn spec_trim_lo(t: Seq<u8>, b: u8, i: int) -> int
    decreases t.len() - i,
{
    if i < 0 || i >= t.len() {
        t.len() as int
    } else if t[i] != b {
        i
    } else {
        spec_trim_lo(t, b, i + 1)
    }
}

/// The position after the last byte differing from `b`, scanning down from
/// `h` but not past `lo`.
pub open spec fn spec_trim_hi(t: Seq<u8>, b: u8, lo: int, h: int) -> int
    decreases h,
{
    if h <= lo || h <= 0 || h > t.len() {
        h
    } else if t[h - 1] != b {
        h
    } else {
        spec_trim_hi(t, b, lo, h - 1)
    }
}

/// The token with every leading and trailing `b` stripped.
pub open spec fn spec_trim(t: Seq<u8>, b: u8) -> Seq<u8> {
    let lo = spec_trim_lo(t, b, 0);
    let hi = spec_trim_hi(t, b, lo, t.len() as int);
    t.subrange(lo, hi)
}

/// The first break token — a bare comma, or `from` in any case — at or
/// after `i`.
pub open spec fn spec_break_at(toks: Seq<Seq<u8>>, i: int) -> Option<int>
    decreases toks.len() - i,
{
    if i < 0 || i >= toks.len() {
        None
    } else if spec_lower_seq(toks[i]) == seq![44u8] || spec_lower_seq(toks[i])
        == kw_from_bytes() {
        Some(i)
    } else {
        spec_break_at(toks, i + 1)
    }
}

/// The first token at or after `i` that ends with a closing quote.
pub open spec fn spec_quote_end(toks: Seq<Seq<u8>>, i: int) -> Option<int>
    decreases toks.len() - i,
{
    if i < 0 || i >= toks.len() {
        None
    } else if toks[i].len() > 0 && toks[i][toks[i].len() - 1] == 39 {
        Some(i)
    } else {
        spec_quote_end(toks, i + 1)
    }
}

/// The quote-trimmed tokens `i` through `j`, joined with single spaces.
pub open spec fn spec_join_quoted(toks: Seq<Seq<u8>>, i: int, j: int) -> Seq<u8>
    decreases j - i,
{
    if j < i {
        Seq::empty()
    } else if j == i {
        spec_trim(toks[i], 39)
    } else {
        spec_join_quoted(toks, i, j - 1) + seq![32u8] + spec_trim(toks[j], 39)
    }
}

/// The projections named by the tokens in `[i, end)`: a token holding
/// `count(` in any case is the count projection; any other token is a
/// column name with commas stripped, which must be valid UTF-8.
pub open spec fn spec_columns_of(toks: Seq<Seq<u8>>, i: int, end: int) -> Result<
    Seq<ColV>,
    DbError,
>
    decreases end - i,
{
    if i >= end {
        Ok(Seq::empty())
    } else if spec_has_sub(spec_lower_seq(toks[i]), kw_count_bytes()) {
        match spec_columns_of(toks, i + 1, end) {
            Err(e) => Err(e),
            Ok(rest) => Ok(seq![ColV::Count] + rest),
        }
    } else {
        let nm = spec_trim(toks[i], 44);
        if !valid_utf8(nm) {
            Err(DbError::ParseError)
        } else {
            match spec_columns_of(toks, i + 1, end) {
                Err(e) => Err(e),
                Ok(rest) => Ok(seq![ColV::Name(nm)] + rest),
            }
        }
    }
}

/// The recognized SELECT, over the statement's whitespace tokens: the
/// projections up to the first break token, the table-name token after it,
/// and an optional `where <column> = '<text>'` filter whose single-quoted
/// literal may span tokens, joined with single spaces.  An unquoted filter
/// literal is unsupported; every other failure is a parse error.
pub open spec fn spec_parse_select(toks: Seq<Seq<u8>>) -> Result<SelectV, DbError> {
    match spec_break_at(toks, 1) {
        None => Err(DbError::ParseError),
        Some(bi) => {
            if bi + 1 >= toks.len() {
                Err(DbError::ParseError)
            } else {
                match spec_columns_of(toks, 1, bi) {
                    Err(e) => Err(e),
                    Ok(cs) => {
                        let tt = toks[bi + 1];
                        if !valid_utf8(tt) {
                            Err(DbError::ParseError)
                        } else {
                            let w = bi + 2;
                            if w < toks.len() && spec_lower_seq(toks[w]) == kw_where_bytes() {
                                if w + 1 >= toks.len() {
                                    Err(DbError::ParseError)
                                } else if !valid_utf8(toks[w + 1]) {
                                    Err(DbError::ParseError)
                                } else if w + 2 >= toks.len() || toks[w + 2] != seq![61u8] {
                                    Err(DbError::ParseError)
                                } else if w + 3 >= toks.len() {
                                    Err(DbError::ParseError)
                                } else if toks[w + 3].len() == 0 || toks[w + 3][0] != 39 {
                                    Err(DbError::UnsupportedFeature)
                                } else {
                                    match spec_quote_end(toks, w + 3) {
                                        None => Err(DbError::ParseError),
                                        Some(q) => Ok(
                                            SelectV {
                                                table: tt,
                                                cols: cs,
                                                filter: Some(
                                                    (toks[w + 1], spec_join_quoted(toks, w + 3, q)),
                                                ),
                                            },
                                        ),
                                    }
                                }
                            } else {
                                Ok(SelectV { table: tt, cols: cs, filter: None })
                            }
                        }
                    },
                }
            }
        },
    }
}

/// Does the built descriptor carry exactly what the model says?
pub open spec fn select_matches(sel: SelectQuery, sv: SelectV) -> bool {
    &&& encode_utf8(sel.table_name@) == sv.table
    &&& sel.columns@.len() == sv.cols.len()
    &&& forall|k: int|
        0 <= k < sv.cols.len() ==> (match sv.cols[k] {
            ColV::Count => (#[trigger] sel.columns@[k]) is Count,
            ColV::Name(nb) => sel.columns@[k] matches Column::ColumnName(s) && encode_utf8(s@)
                == nb,
        })
    &&& match sv.filter {
        None => sel.filters@.len() == 0,
        Some((cb, vb)) => sel.filters@.len() == 1 && encode_utf8(sel.filters@[0].column_name@)
            == cb && sel.filters@[0].column_value@ == SpecVal::Text(vb),
    }
}

/// Do the bytes at `at` equal `needle`?
fn match_at(hay: &Vec<u8>, needle: &Vec<u8>, at: usize) -> (r: bool)
    requires
        at + needle@.len() <= hay@.len(),
    ensures
        r == (hay@.subrange(at as int, at as int + needle@.len() as int) == needle@),
{
    let nn = needle.len();
    let hn = hay.len();
    let mut j: usize = 0;
    while j < nn
        invariant
            j <= nn,
            nn == needle@.len(),
            hn == hay@.len(),
            at + nn <= hn,
            forall|y: int| 0 <= y < j ==> hay@[at + y] == needle@[y],
        decreases nn - j,
    {
        if hay[at + j] != needle[j] {
            proof {
                assert(hay@.subrange(at as int, at as int + nn as int)[j as int] != needle@[
                    j as int]);
            }
            return false;
        }
        j = j + 1;
    }
    proof {
        assert(hay@.subrange(at as int, at as int + nn as int) =~= needle@);
    }
    true
}

/// Does `hay` hold `needle` as a contiguous run?
fn contains_sub(hay: &Vec<u8>, needle: &Vec<u8>) -> (r: bool)
    ensures
        r == spec_has_sub(hay@, needle@),
{
    let hn = hay.len();
    let nn = needle.len();
    if nn > hn {
        proof {
            assert(!spec_has_sub(hay@, needle@));
        }
        return false;
    }
    if nn == 0 {
        proof {
            assert(hay@.subrange(0, 0 + needle@.len() as int) =~= needle@);
            assert(spec_has_sub(hay@, needle@));
        }
        return true;
    }
    let mut i: usize = 0;
    while i <= hn - nn
        invariant
            1 <= nn <= hn,
            i <= hn - nn + 1,
            hn == hay@.len(),
            nn == needle@.len(),
            forall|x: int|
                0 <= x < i ==> #[trigger] hay@.subrange(x, x + nn as int) != needle@,
        decreases hn - nn - i + 1,
    {
        if match_at(hay, needle, i) {
            proof {
                assert(hay@.subrange(i as int, i as int + needle@.len() as int) == needle@);
                assert(spec_has_sub(hay@, needle@));
            }
            return true;
        }
        i = i + 1;
    }
    proof {
        assert(!spec_has_sub(hay@, needle@));
    }
    false
}

/// The bytes with every leading and trailing `b` stripped.
fn trim_byte(v: &Vec<u8>, b: u8) -> (r: Vec<u8>)
    ensures
        r@ == spec_trim(v@, b),
{
    let n = v.len();
    let mut lo: usize = 0;
    while lo < n && v[lo] == b
        invariant
            lo <= n,
            n == v@.len(),
            spec_trim_lo(v@, b, 0) == spec_trim_lo(v@, b, lo as int),
        decreases n - lo,
    {
        lo = lo + 1;
    }
    assert(spec_trim_lo(v@, b, 0) == lo as int);
    let mut hi: usize = n;
    while hi > lo && v[hi - 1] == b
        invariant
            lo <= hi <= n,
            n == v@.len(),
            spec_trim_hi(v@, b, lo as int, n as int) == spec_trim_hi(v@, b, lo as int, hi as int),
        decreases hi,
    {
        hi = hi - 1;
    }
    assert(spec_trim_hi(v@, b, lo as int, n as int) == hi as int);
    vstd::slice::slice_to_vec(vstd::slice::slice_subrange(v.as_slice(), lo, hi))
}

/// The first break token — a bare comma or `from` in any case — at or
/// after `from_i`.
fn break_at_tok(toks: &Vec<Vec<u8>>, from_i: usize) -> (r: Option<usize>)
    ensures
        ({
            let tv = toks@.map(|k, v: Vec<u8>| v@);
            match r {
                Some(bi) => spec_break_at(tv, from_i as int) == Some(bi as int) && from_i <= bi
                    < tv.len(),
                None => spec_break_at(tv, from_i as int) is None,
            }
        }),
{
    let ghost tv = toks@.map(|k, v: Vec<u8>| v@);
    let kw_from: Vec<u8> = vec![102u8, 114u8, 111u8, 109u8];
    let kw_comma: Vec<u8> = vec![44u8];
    proof {
        assert(kw_from@ =~= kw_from_bytes());
        assert(kw_comma@ =~= seq![44u8]);
    }
    let n = toks.len();
    let mut i = from_i;
    while i < n
        invariant
            from_i <= i,
            n == toks@.len(),
            tv == toks@.map(|k, v: Vec<u8>| v@),
            kw_from@ == kw_from_bytes(),
            kw_comma@ == seq![44u8],
            spec_break_at(tv, from_i as int) == spec_break_at(tv, i as int),
        decreases n - i,
    {
        let lt = lower_bytes(toks[i].as_slice());
        proof {
            assert(lt@ == spec_lower_seq(tv[i as int]));
        }
        if vec_is_kw(&lt, &kw_comma) || vec_is_kw(&lt, &kw_from) {
            return Some(i);
        }
        i = i + 1;
    }
    None
}

/// The first token at or after `from_i` that ends with a closing quote.
fn quote_end_tok(toks: &Vec<Vec<u8>>, from_i: usize) -> (r: Option<usize>)
    ensures
        ({
            let tv = toks@.map(|k, v: Vec<u8>| v@);
            match r {
                Some(q) => spec_quote_end(tv, from_i as int) == Some(q as int) && from_i <= q
                    < tv.len(),
                None => spec_quote_end(tv, from_i as int) is None,
            }
        }),
{
    let ghost tv = toks@.map(|k, v: Vec<u8>| v@);
    let n = toks.len();
    let mut i = from_i;
    while i < n
        invariant
            from_i <= i,
            n == toks@.len(),
            tv == toks@.map(|k, v: Vec<u8>| v@),
            spec_quote_end(tv, from_i as int) == spec_quote_end(tv, i as int),
        decreases n - i,
    {
        let t = &toks[i];
        let tl = t.len();
        if tl > 0 && t[tl - 1] == 39 {
            return Some(i);
        }
        i = i + 1;
    }
    None
}

/// The records carried by the listed rows/// The records carried by the listed rows, with the row-ids folded in.
pub open spec fn rows_to_recs(
    rows: Seq<crate::btree::RowV>,
    names: Seq<Seq<char>>,
    ipk: Option<int>,
) -> Seq<Seq<(Seq<char>, SpecVal)>> {
    Seq::new(
        rows.len(),
        |i: int| crate::cell::spec_rowid_pairs(names, rows[i].1, rows[i].0, ipk),
    )
}

/// The COUNT(*) step: a projection of exactly one count column collapses
/// the rows into a single row holding their count.
pub open spec fn spec_finalize(
    proj: Result<Seq<Seq<SpecVal>>, DbError>,
    cols: Seq<Column>,
) -> Result<Seq<Seq<SpecVal>>, DbError> {
    match proj {
        Err(e) => Err(e),
        Ok(rows) => {
            if cols.len() == 1 && cols[0] is Count {
                if rows.len() > i64::MAX {
                    Err(DbError::UnsupportedFeature)
                } else {
                    Ok(seq![seq![SpecVal::Int(rows.len() as i64)]])
                }
            } else {
                Ok(rows)
            }
        },
    }
}

/// The first index on the filtered column of the queried table, when the
/// query has a filter.
pub open spec fn spec_plan_index(
    objects: Seq<crate::database::ObjectSchema>,
    table_name: Seq<char>,
    filters: Seq<Filter>,
) -> Option<crate::database::IndexSchema>
    decreases objects.len(),
{
    if filters.len() == 0 || objects.len() == 0 {
        None
    } else {
        match objects[0] {
            crate::database::ObjectSchema::Index(ix) => {
                if ix.column_name@ == filters[0].column_name@ && ix.table_name@ == table_name {
                    Some(ix)
                } else {
                    spec_plan_index(objects.drop_first(), table_name, filters)
                }
            },
            _ => spec_plan_index(objects.drop_first(), table_name, filters),
        }
    }
}

/// The first index on the filtered column of the queried table.
fn plan_index<'a>(
    db: &'a crate::database::Database,
    table_name: &str,
    filters: &Vec<Filter>,
) -> (r: Option<&'a crate::database::IndexSchema>)
    ensures
        match r {
            Some(ix) => spec_plan_index(db.schema.objects@, table_name@, filters@) == Some(*ix),
            None => spec_plan_index(db.schema.objects@, table_name@, filters@) is None,
        },
{
    if filters.len() == 0 {
        return None;
    }
    let n = db.schema.objects.len();
    let mut i: usize = 0;
    proof {
        assert(db.schema.objects@.skip(0) =~= db.schema.objects@);
    }
    while i < n
        invariant
            i <= n,
            n == db.schema.objects@.len(),
            filters@.len() > 0,
            spec_plan_index(db.schema.objects@, table_name@, filters@) == spec_plan_index(
                db.schema.objects@.skip(i as int),
                table_name@,
                filters@,
            ),
        decreases n - i,
    {
        proof {
            assert(db.schema.objects@.skip(i as int)[0] == db.schema.objects@[i as int]);
            assert(db.schema.objects@.skip(i as int).drop_first() =~= db.schema.objects@.skip(
                i as int + 1,
            ));
        }
        match &db.schema.objects[i] {
            crate::database::ObjectSchema::Index(ix) => {
                if crate::bytes::str_eq(ix.column_name.as_str(), filters[0].column_name.as_str())
                    && crate::bytes::str_eq(ix.table_name.as_str(), table_name) {
                    return Some(ix);
                }
            },
            _ => {},
        }
        i = i + 1;
    }
    None
}

impl Query {
    /// The CREATE descriptor, when the statement is one.
    pub fn as_create(&self) -> (r: Option<&CreateQuery>)
        ensures
            match self {
                Query::Create(cq) => r matches Some(c) && c == cq,
                _ => r is None,
            },
    {
        match self {
            Query::Create(cq) => Some(cq),
            _ => None,
        }
    }

    /// Recognize a statement.  A text whose first token lowers to `create`
    /// yields a CREATE descriptor with the exact column list of its
    /// parenthesised body; one whose first token lowers to `select` yields
    /// a SELECT descriptor exactly as `spec_parse_select` lays down over
    /// the whitespace tokens; anything else is a parse error.  An unquoted
    /// filter literal is unsupported.
    #[verifier::rlimit(100)]
    #[verifier::spinoff_prover]
    pub fn parse(query_str: &str) -> (r: Result<Query, DbError>)
        ensures
            ({
                let bs = query_str.spec_bytes();
                let toks = spec_tokens_from(bs, 0);
                match r {
                    Ok(q) => match q {
                        Query::Create(cq) => {
                            &&& toks.len() > 0
                            &&& spec_lower_seq(toks[0]) == kw_create_bytes()
                            &&& create_ok(bs)
                            &&& (match spec_create_columns(bs) {
                                Ok(names) => {
                                    &&& cq.column_names@.len() == names.len()
                                    &&& forall|k: int|
                                        0 <= k < names.len() ==> encode_utf8(
                                            (#[trigger] cq.column_names@[k])@,
                                        ) == names[k]
                                    &&& cq.ipk == (match spec_create_ipk(bs) {
                                        Some(i) => Some(i as usize),
                                        None => None,
                                    })
                                },
                                Err(_) => false,
                            })
                        },
                        Query::Select(sel) => {
                            &&& toks.len() > 0
                            &&& spec_lower_seq(toks[0]) == kw_select_bytes()
                            &&& spec_parse_select(toks) matches Ok(sv) && select_matches(sel, sv)
                        },
                    },
                    Err(e) => {
                        if toks.len() > 0 && spec_lower_seq(toks[0]) == kw_create_bytes() {
                            e == DbError::ParseError && !create_ok(bs)
                        } else if toks.len() > 0 && spec_lower_seq(toks[0]) == kw_select_bytes() {
                            spec_parse_select(toks) matches Err(e2) && e == e2
                        } else {
                            e == DbError::ParseError
                        }
                    },
                }
            }),
    {
        let bytes = query_str.as_bytes();
        let toks = tokenize(bytes);
        let ghost tv = spec_tokens_from(query_str.spec_bytes(), 0);
        proof {
            assert(toks@.map(|k, v: Vec<u8>| v@) =~= tv);
        }
        if toks.len() == 0 {
            return Err(DbError::ParseError);
        }
        let kw_select: Vec<u8> = vec![115u8, 101u8, 108u8, 101u8, 99u8, 116u8];
        let kw_create: Vec<u8> = vec![99u8, 114u8, 101u8, 97u8, 116u8, 101u8];
        let kw_where: Vec<u8> = vec![119u8, 104u8, 101u8, 114u8, 101u8];
        let kw_count: Vec<u8> = vec![99u8, 111u8, 117u8, 110u8, 116u8, 40u8];
        let kw_eq: Vec<u8> = vec![61u8];
        proof {
            assert(kw_select@ =~= kw_select_bytes());
            assert(kw_create@ =~= kw_create_bytes());
            assert(kw_where@ =~= kw_where_bytes());
            assert(kw_count@ =~= kw_count_bytes());
            assert(kw_eq@ =~= seq![61u8]);
        }
        let first = lower_bytes(toks[0].as_slice());
        proof {
            assert(first@ == spec_lower_seq(tv[0]));
        }
        if vec_is_kw(&first, &kw_create) {
            let cq = match parse_create_bytes(bytes) {
                Ok(cq) => cq,
                Err(e) => {
                    return Err(e);
                },
            };
            return Ok(Query::Create(cq));
        }
        if !vec_is_kw(&first, &kw_select) {
            return Err(DbError::ParseError);
        }
        let tn = toks.len();
        // the projections run to the first break token; the table follows it
        let bi = match break_at_tok(&toks, 1) {
            Some(b) => b,
            None => {
                return Err(DbError::ParseError);
            },
        };
        if bi + 1 >= tn {
            return Err(DbError::ParseError);
        }
        let mut columns: Vec<Column> = Vec::new();
        let ghost mut done_cols: Seq<ColV> = Seq::empty();
        let mut i: usize = 1;
        proof {
            match spec_columns_of(tv, 1, bi as int) {
                Ok(rest) => {
                    assert(Seq::<ColV>::empty() + rest =~= rest);
                },
                Err(_) => {},
            }
        }
        while i < bi
            invariant
                1 <= i <= bi,
                bi < tn,
                tn == toks@.len(),
                tv == toks@.map(|k, v: Vec<u8>| v@),
                tv.len() == tn,
                tv == spec_tokens_from(query_str.spec_bytes(), 0),
                spec_lower_seq(tv[0]) == kw_select_bytes(),
                kw_count@ == kw_count_bytes(),
                spec_break_at(tv, 1) == Some(bi as int),
                bi + 1 < tn,
                columns@.len() == done_cols.len(),
                forall|k: int|
                    0 <= k < done_cols.len() ==> (match done_cols[k] {
                        ColV::Count => (#[trigger] columns@[k]) is Count,
                        ColV::Name(nb) => columns@[k] matches Column::ColumnName(s2)
                            && encode_utf8(s2@) == nb,
                    }),
                match spec_columns_of(tv, i as int, bi as int) {
                    Ok(rest) => spec_columns_of(tv, 1, bi as int) == Ok::<Seq<ColV>, DbError>(
                        done_cols + rest,
                    ),
                    Err(e) => spec_columns_of(tv, 1, bi as int) matches Err(e2) && e == e2,
                },
            decreases bi - i,
        {
            let lt = lower_bytes(toks[i].as_slice());
            proof {
                assert(lt@ == spec_lower_seq(tv[i as int]));
            }
            let ghost done_old = done_cols;
            if contains_sub(&lt, &kw_count) {
                columns.push(Column::Count);
                proof {
                    done_cols = done_old.push(ColV::Count);
                }
            } else {
                let trimmed = trim_byte(&toks[i], 44);
                let ghost nm = spec_trim(tv[i as int], 44);
                assert(trimmed@ == nm);
                let name = match utf8_to_string(trimmed) {
                    Ok(s2) => s2,
                    Err(_) => {
                        proof {
                            assert(spec_columns_of(tv, i as int, bi as int) matches Err(e2) && e2
                                == DbError::ParseError);
                            assert(spec_parse_select(tv) matches Err(e3) && e3
                                == DbError::ParseError);
                            assert(spec_lower_seq(tv[0]) != kw_create_bytes());
                        }
                        return Err(DbError::ParseError);
                    },
                };
                columns.push(Column::ColumnName(name));
                proof {
                    done_cols = done_old.push(ColV::Name(nm));
                }
            }
            proof {
                match spec_columns_of(tv, i as int + 1, bi as int) {
                    Ok(rest) => {
                        assert(done_old + (seq![done_cols.last()] + rest) =~= done_cols + rest);
                    },
                    Err(_) => {},
                }
            }
            i = i + 1;
        }
        proof {
            assert(spec_columns_of(tv, bi as int, bi as int) == Ok::<Seq<ColV>, DbError>(
                Seq::empty(),
            ));
            assert(done_cols + Seq::<ColV>::empty() =~= done_cols);
        }
        // the table-name token, as it stands
        let table_name = match utf8_to_string(vstd::slice::slice_to_vec(toks[bi + 1].as_slice())) {
            Ok(s2) => s2,
            Err(_) => {
                return Err(DbError::ParseError);
            },
        };
        let w = bi + 2;
        let mut filters: Vec<Filter> = Vec::new();
        let mut has_where = false;
        if w < tn {
            let lt = lower_bytes(toks[w].as_slice());
            proof {
                assert(lt@ == spec_lower_seq(tv[w as int]));
            }
            has_where = vec_is_kw(&lt, &kw_where);
        }
        if has_where {
            if w + 1 >= tn {
                return Err(DbError::ParseError);
            }
            let column_name = match utf8_to_string(
                vstd::slice::slice_to_vec(toks[w + 1].as_slice()),
            ) {
                Ok(s2) => s2,
                Err(_) => {
                    return Err(DbError::ParseError);
                },
            };
            if w + 2 >= tn || !vec_is_kw(&toks[w + 2], &kw_eq) {
                return Err(DbError::ParseError);
            }
            if w + 3 >= tn {
                return Err(DbError::ParseError);
            }
            let v0 = w + 3;
            let vt = &toks[v0];
            if vt.len() == 0 || vt[0] != 39 {
                return Err(DbError::UnsupportedFeature);
            }
            let q = match quote_end_tok(&toks, v0) {
                Some(q) => q,
                None => {
                    return Err(DbError::ParseError);
                },
            };
            let mut text: Vec<u8> = Vec::new();
            let mut k = v0;
            while k <= q
                invariant
                    v0 <= k <= q + 1,
                    q < tn,
                    tn == toks@.len(),
                    tv == toks@.map(|k2, v: Vec<u8>| v@),
                    k == v0 ==> text@ == Seq::<u8>::empty(),
                    k > v0 ==> text@ == spec_join_quoted(tv, v0 as int, k as int - 1),
                decreases q + 1 - k,
            {
                if k > v0 {
                    text.push(32);
                }
                let mut trimmed = trim_byte(&toks[k], 39);
                proof {
                    assert(trimmed@ == spec_trim(tv[k as int], 39));
                }
                text.append(&mut trimmed);
                proof {
                    if k > v0 {
                        assert(text@ =~= spec_join_quoted(tv, v0 as int, k as int - 1) + seq![32u8]
                            + spec_trim(tv[k as int], 39));
                    } else {
                        assert(text@ =~= spec_trim(tv[v0 as int], 39));
                    }
                }
                k = k + 1;
            }
            let ghost textv = text@;
            filters.push(Filter { column_name, column_value: Value::Text(text) });
            proof {
                assert(textv == spec_join_quoted(tv, v0 as int, q as int));
            }
        }
        let sel = SelectQuery { table_name, columns, filters };
        proof {
            match spec_parse_select(tv) {
                Ok(sv) => {
                    assert(select_matches(sel, sv));
                },
                Err(_) => {
                    assert(false);
                },
            }
        }
        Ok(Query::Select(sel))
    }
}

impl Query {
    /// Run a recognized statement against the database held in `file`.
    ///
    /// A CREATE statement is not executable.  A SELECT resolves its
    /// table; with one filter and an index on that column of that table,
    /// the index supplies the row-ids and only those rows are fetched,
    /// with no re-filtering; otherwise the whole table is scanned and
    /// filtered.  The surviving rows are projected, and a projection of
    /// exactly one COUNT column collapses to the row count.
    #[verifier::rlimit(100)]
    #[verifier::spinoff_prover]
    pub fn execute(&self, db: &crate::database::Database, file: &[u8]) -> (r: Result<
        Vec<Vec<Value>>,
        DbError,
    >)
        requires
            crate::database::db_wf(*db),
        ensures
            self is Create ==> r == Err::<Vec<Vec<Value>>, DbError>(DbError::UnsupportedFeature),
            ({
                let psize = db.header.page_size as int;
                let usable = psize - db.header.end_page_reserved_bytes as int;
                self matches Query::Select(sel) ==> spec_plan_index(
                    db.schema.objects@,
                    sel.table_name@,
                    sel.filters@,
                ) is None ==> (match crate::database::spec_table_by_name(
                    db.schema.objects@,
                    sel.table_name@,
                ) {
                    None => r == Err::<Vec<Vec<Value>>, DbError>(DbError::NoSuchTable),
                    Some(t) => match crate::btree::spec_table_rows(
                        file@,
                        psize,
                        usable,
                        t.column_names@.len() as int,
                        t.root_page as int,
                    ) {
                        Err(e) => r == Err::<Vec<Vec<Value>>, DbError>(e),
                        Ok(rows) => match spec_finalize(
                            spec_project_records(
                                rows_to_recs(
                                    rows,
                                    t.column_names@.map(|i, n: String| n@),
                                    crate::database::ipk_view(t.ipk),
                                ),
                                sel.columns@,
                                sel.filters@,
                                true,
                            ),
                            sel.columns@,
                        ) {
                            Err(e) => r == Err::<Vec<Vec<Value>>, DbError>(e),
                            Ok(out_rows) => r matches Ok(o) && rows_view(o@) == out_rows,
                        },
                    },
                })
            }),
            ({
                let psize = db.header.page_size as int;
                let usable = psize - db.header.end_page_reserved_bytes as int;
                self matches Query::Select(sel) ==> spec_plan_index(
                    db.schema.objects@,
                    sel.table_name@,
                    sel.filters@,
                ) matches Some(ix) ==> crate::database::spec_table_by_name(
                    db.schema.objects@,
                    sel.table_name@,
                ) matches Some(t) ==> crate::btree::spec_index_entries(
                    file@,
                    psize,
                    usable,
                    ix.root_page as int,
                ) matches Ok(entries) ==> crate::btree::wf_table_tree(
                    file@,
                    psize,
                    usable,
                    t.column_names@.len() as int,
                    t.root_page as int,
                    crate::btree::spec_fuel(file@, psize),
                ) ==> (match spec_finalize(
                    spec_project_records(
                        rows_to_recs(
                            crate::btree::filter_ids(
                                crate::btree::subtree_rows(
                                    file@,
                                    psize,
                                    usable,
                                    t.column_names@.len() as int,
                                    t.root_page as int,
                                    crate::btree::spec_fuel(file@, psize),
                                ),
                                matching_ids_of(entries, sel.filters@),
                            ),
                            t.column_names@.map(|i, n: String| n@),
                            crate::database::ipk_view(t.ipk),
                        ),
                        sel.columns@,
                        sel.filters@,
                        false,
                    ),
                    sel.columns@,
                ) {
                    Err(e) => r == Err::<Vec<Vec<Value>>, DbError>(e),
                    Ok(out_rows) => r matches Ok(o) && rows_view(o@) == out_rows,
                })
            }),
            // the index path never yields a partial result: a failed index
            // walk or a missing table is an error
            ({
                let psize = db.header.page_size as int;
                let usable = psize - db.header.end_page_reserved_bytes as int;
                self matches Query::Select(sel) ==> spec_plan_index(
                    db.schema.objects@,
                    sel.table_name@,
                    sel.filters@,
                ) matches Some(ix) ==> crate::btree::spec_index_entries(
                    file@,
                    psize,
                    usable,
                    ix.root_page as int,
                ) matches Err(e2) ==> r == Err::<Vec<Vec<Value>>, DbError>(e2)
            }),
            ({
                let psize = db.header.page_size as int;
                let usable = psize - db.header.end_page_reserved_bytes as int;
                self matches Query::Select(sel) ==> spec_plan_index(
                    db.schema.objects@,
                    sel.table_name@,
                    sel.filters@,
                ) matches Some(ix) ==> (crate::btree::spec_index_entries(
                    file@,
                    psize,
                    usable,
                    ix.root_page as int,
                ) is Ok && crate::database::spec_table_by_name(
                    db.schema.objects@,
                    sel.table_name@,
                ) is None ==> r == Err::<Vec<Vec<Value>>, DbError>(DbError::NoSuchTable))
            }),
    {
        let sel = match self {
            Query::Create(_) => {
                return Err(DbError::UnsupportedFeature);
            },
            Query::Select(sel) => sel,
        };
        let (records, post_filter) = match plan_index(db, sel.table_name.as_str(), &sel.filters) {
            Some(ix) => {
                let recs = match fetch_indexed(
                    db,
                    file,
                    sel.table_name.as_str(),
                    &sel.filters[0].column_value,
                    ix,
                ) {
                    Ok(recs) => recs,
                    Err(e) => {
                        return Err(e);
                    },
                };
                (recs, false)
            },
            None => {
                let recs = match fetch_full(db, file, sel.table_name.as_str()) {
                    Ok(recs) => recs,
                    Err(e) => {
                        return Err(e);
                    },
                };
                (recs, true)
            },
        };
        let projected = match project_records(&records, &sel.columns, &sel.filters, post_filter) {
            Ok(p) => p,
            Err(e) => {
                return Err(e);
            },
        };
        let is_count = sel.columns.len() == 1 && (match &sel.columns[0] {
            Column::Count => true,
            _ => false,
        });
        if is_count {
            let cnt = projected.len();
            if cnt as u64 > i64::MAX as u64 {
                return Err(DbError::UnsupportedFeature);
            }
            let mut row: Vec<Value> = Vec::new();
            row.push(Value::Integer(cnt as i64));
            let mut out: Vec<Vec<Value>> = Vec::new();
            let ghost rowv = row@;
            out.push(row);
            proof {
                assert(rows_view(out@) =~= seq![rowv.map(|j, x: Value| x@)]);
                assert(rowv.map(|j, x: Value| x@) =~= seq![SpecVal::Int(cnt as i64)]);
            }
            Ok(out)
        } else {
            Ok(projected)
        }
    }
}

/// Scan the queried table whole.
fn fetch_full(db: &crate::database::Database, file: &[u8], table_name: &str) -> (r: Result<
    Vec<Record>,
    DbError,
>)
    requires
        crate::database::db_wf(*db),
    ensures
        ({
            let psize = db.header.page_size as int;
            let usable = psize - db.header.end_page_reserved_bytes as int;
            match crate::database::spec_table_by_name(db.schema.objects@, table_name@) {
                None => r == Err::<Vec<Record>, DbError>(DbError::NoSuchTable),
                Some(t) => match crate::btree::spec_table_rows(
                    file@,
                    psize,
                    usable,
                    t.column_names@.len() as int,
                    t.root_page as int,
                ) {
                    Err(e) => r == Err::<Vec<Record>, DbError>(e),
                    Ok(rows) => r matches Ok(recs) && recs@.map(|i, rec: Record| rec@)
                        == rows_to_recs(
                        rows,
                        t.column_names@.map(|i, n: String| n@),
                        crate::database::ipk_view(t.ipk),
                    ),
                },
            }
        }),
{
    let t = match table_by_name_in(db, table_name) {
        Some(t) => t,
        None => {
            return Err(DbError::NoSuchTable);
        },
    };
    let psize = db.header.page_size;
    let usable = psize - db.header.end_page_reserved_bytes;
    let fuel = fuel_of(file, psize);
    let mut recs: Vec<Record> = Vec::new();
    match crate::btree::scan_table(
        file,
        psize,
        usable,
        &t.column_names,
        t.ipk,
        t.root_page,
        fuel,
        &mut recs,
    ) {
        Ok(_) => {},
        Err(e) => {
            return Err(e);
        },
    }
    proof {
        assert(recs@.skip(0) =~= recs@);
        match crate::btree::spec_table_rows(
            file@,
            psize as int,
            usable as int,
            t.column_names@.len() as int,
            t.root_page as int,
        ) {
            Ok(rows) => {
                assert(recs@.map(|i, rec: Record| rec@) =~= rows_to_recs(
                    rows,
                    t.column_names@.map(|i, n: String| n@),
                    crate::database::ipk_view(t.ipk),
                ));
            },
            Err(_) => {},
        }
    }
    Ok(recs)
}

/// Look the filter value up in the index, then fetch only those rows.
fn fetch_indexed(
    db: &crate::database::Database,
    file: &[u8],
    table_name: &str,
    needle: &Value,
    ix: &crate::database::IndexSchema,
) -> (r: Result<Vec<Record>, DbError>)
    requires
        crate::database::db_wf(*db),
    ensures
        ({
            let psize = db.header.page_size as int;
            let usable = psize - db.header.end_page_reserved_bytes as int;
            crate::btree::spec_index_entries(file@, psize, usable, ix.root_page as int)
                matches Err(e2) ==> r == Err::<Vec<Record>, DbError>(e2)
        }),
        ({
            let psize = db.header.page_size as int;
            let usable = psize - db.header.end_page_reserved_bytes as int;
            crate::btree::spec_index_entries(file@, psize, usable, ix.root_page as int) is Ok
                && crate::database::spec_table_by_name(db.schema.objects@, table_name@) is None
                ==> r == Err::<Vec<Record>, DbError>(DbError::NoSuchTable)
        }),
        ({
            let psize = db.header.page_size as int;
            let usable = psize - db.header.end_page_reserved_bytes as int;
            crate::btree::spec_index_entries(file@, psize, usable, ix.root_page as int)
                matches Ok(entries) ==> crate::database::spec_table_by_name(
                db.schema.objects@,
                table_name@,
            ) matches Some(t) ==> crate::btree::wf_table_tree(
                file@,
                psize,
                usable,
                t.column_names@.len() as int,
                t.root_page as int,
                crate::btree::spec_fuel(file@, psize),
            ) ==> (r matches Ok(recs) && recs@.map(|i, rec: Record| rec@) == rows_to_recs(
                crate::btree::filter_ids(
                    crate::btree::subtree_rows(
                        file@,
                        psize,
                        usable,
                        t.column_names@.len() as int,
                        t.root_page as int,
                        crate::btree::spec_fuel(file@, psize),
                    ),
                    crate::btree::matching_ids(entries, needle@),
                ),
                t.column_names@.map(|i, n: String| n@),
                crate::database::ipk_view(t.ipk),
            ))
        }),
{
    let psize = db.header.page_size;
    let usable = psize - db.header.end_page_reserved_bytes;
    let fuel = fuel_of(file, psize);
    let mut names: Vec<String> = Vec::new();
    names.push(ix.column_name.clone());
    names.push("row_id".to_owned());
    let mut ids: Vec<i64> = Vec::new();
    match crate::btree::scan_index(
        file,
        psize,
        usable,
        &names,
        ix.root_page,
        fuel,
        needle,
        &mut ids,
    ) {
        Ok(_) => {},
        Err(e) => {
            return Err(e);
        },
    }
    proof {
        match crate::btree::spec_index_entries(
            file@,
            psize as int,
            usable as int,
            ix.root_page as int,
        ) {
            Ok(entries) => {
                assert(ids@ =~= Seq::<i64>::empty() + crate::btree::matching_ids(
                    entries,
                    needle@,
                ));
            },
            Err(_) => {},
        }
    }
    let t = match table_by_name_in(db, table_name) {
        Some(t) => t,
        None => {
            return Err(DbError::NoSuchTable);
        },
    };
    let mut recs: Vec<Record> = Vec::new();
    match crate::btree::scan_targeted(
        file,
        psize,
        usable,
        &t.column_names,
        t.ipk,
        &ids,
        t.root_page,
        fuel,
        &mut recs,
    ) {
        Ok(_) => {},
        Err(e) => {
            proof {
                if crate::btree::wf_table_tree(
                    file@,
                    psize as int,
                    usable as int,
                    t.column_names@.len() as int,
                    t.root_page as int,
                    crate::btree::spec_fuel(file@, psize as int),
                ) {
                    assert(false);
                }
            }
            return Err(e);
        },
    }
    proof {
        assert(recs@.skip(0) =~= recs@);
        if crate::btree::wf_table_tree(
            file@,
            psize as int,
            usable as int,
            t.column_names@.len() as int,
            t.root_page as int,
            crate::btree::spec_fuel(file@, psize as int),
        ) {
            let rows = crate::btree::filter_ids(
                crate::btree::subtree_rows(
                    file@,
                    psize as int,
                    usable as int,
                    t.column_names@.len() as int,
                    t.root_page as int,
                    crate::btree::spec_fuel(file@, psize as int),
                ),
                ids@,
            );
            assert(recs@.map(|i, rec: Record| rec@) =~= rows_to_recs(
                rows,
                t.column_names@.map(|i, n: String| n@),
                crate::database::ipk_view(t.ipk),
            ));
        }
    }
    Ok(recs)
}


/// The record of the row at `j`, with the row-id folded in.
pub open spec fn row_rec(rows: Seq<crate::btree::RowV>, j: int, names: Seq<Seq<char>>, ipk: Option<int>) -> Seq<
    (Seq<char>, SpecVal),
> {
    crate::cell::spec_rowid_pairs(names, rows[j].1, rows[j].0, ipk)
}

/// Law: on a table whose index holds, for the filtered column, exactly the
/// matching (value, row-id) pairs, the index plan — fetch the matching
/// row-ids and skip the re-filter — yields exactly what the full scan
/// with the post-filter yields, row for row and in the same order.
pub proof fn lemma_plan_equivalence(
    rows: Seq<crate::btree::RowV>,
    entries: Seq<crate::btree::EntryV>,
    names: Seq<Seq<char>>,
    ipk: Option<int>,
    cols: Seq<Column>,
    f: Filter,
)
    requires
        crate::btree::sorted_rows(rows),
        forall|j: int|
            0 <= j < rows.len() ==> spec_lookup(
                #[trigger] row_rec(rows, j, names, ipk),
                f.column_name@,
            ) is Some,
        forall|rid: i64|
            #[trigger] crate::btree::matching_ids(entries, f.column_value@).contains(rid)
                <==> exists|j: int|
                0 <= j < rows.len() && (#[trigger] rows[j]).0 == rid && spec_value_eq(
                    spec_lookup(row_rec(rows, j, names, ipk), f.column_name@)->Some_0,
                    f.column_value@,
                ),
    ensures
        spec_project_records(
            rows_to_recs(
                crate::btree::filter_ids(rows, crate::btree::matching_ids(entries, f.column_value@)),
                names,
                ipk,
            ),
            cols,
            seq![f],
            false,
        ) == spec_project_records(rows_to_recs(rows, names, ipk), cols, seq![f], true),
{
    lemma_plan_equivalence_from(rows, entries, names, ipk, cols, f, 0);
    assert(rows.skip(0) =~= rows);
}

/// The equivalence over the rows from `i` on.
proof fn lemma_plan_equivalence_from(
    rows: Seq<crate::btree::RowV>,
    entries: Seq<crate::btree::EntryV>,
    names: Seq<Seq<char>>,
    ipk: Option<int>,
    cols: Seq<Column>,
    f: Filter,
    i: int,
)
    requires
        0 <= i <= rows.len(),
        crate::btree::sorted_rows(rows),
        forall|j: int|
            0 <= j < rows.len() ==> spec_lookup(
                #[trigger] row_rec(rows, j, names, ipk),
                f.column_name@,
            ) is Some,
        forall|rid: i64|
            #[trigger] crate::btree::matching_ids(entries, f.column_value@).contains(rid)
                <==> exists|j: int|
                0 <= j < rows.len() && (#[trigger] rows[j]).0 == rid && spec_value_eq(
                    spec_lookup(row_rec(rows, j, names, ipk), f.column_name@)->Some_0,
                    f.column_value@,
                ),
    ensures
        spec_project_records(
            rows_to_recs(
                crate::btree::filter_ids(
                    rows.skip(i),
                    crate::btree::matching_ids(entries, f.column_value@),
                ),
                names,
                ipk,
            ),
            cols,
            seq![f],
            false,
        ) == spec_project_records(rows_to_recs(rows.skip(i), names, ipk), cols, seq![f], true),
    decreases rows.len() - i,
{
    let m = crate::btree::matching_ids(entries, f.column_value@);
    let suffix = rows.skip(i);
    if i == rows.len() {
        assert(suffix =~= Seq::<crate::btree::RowV>::empty());
        assert(crate::btree::filter_ids(suffix, m) =~= Seq::<crate::btree::RowV>::empty());
        assert(rows_to_recs(Seq::<crate::btree::RowV>::empty(), names, ipk) =~= Seq::<
            Seq<(Seq<char>, SpecVal)>,
        >::empty());
    } else {
        lemma_plan_equivalence_from(rows, entries, names, ipk, cols, f, i + 1);
        let r0 = rows[i];
        assert(suffix[0] == r0);
        assert(suffix.drop_first() =~= rows.skip(i + 1));
        let rec0 = row_rec(rows, i, names, ipk);
        let v0 = spec_lookup(rec0, f.column_name@)->Some_0;
        let hit = spec_value_eq(v0, f.column_value@);
        // the index keeps the row exactly when the post-filter does
        assert(m.contains(r0.0) == hit) by {
            if hit {
                assert(exists|j: int|
                    0 <= j < rows.len() && (#[trigger] rows[j]).0 == r0.0 && spec_value_eq(
                        spec_lookup(row_rec(rows, j, names, ipk), f.column_name@)->Some_0,
                        f.column_value@,
                    )) by {
                    assert(rows[i].0 == r0.0 && spec_value_eq(
                        spec_lookup(row_rec(rows, i, names, ipk), f.column_name@)->Some_0,
                        f.column_value@,
                    ));
                }
            } else {
                if m.contains(r0.0) {
                    let j = choose|j: int|
                        0 <= j < rows.len() && (#[trigger] rows[j]).0 == r0.0 && spec_value_eq(
                            spec_lookup(row_rec(rows, j, names, ipk), f.column_name@)->Some_0,
                            f.column_value@,
                        );
                    if j != i {
                        if i < j {
                            assert(rows[i].0 < rows[j].0);
                        } else {
                            assert(rows[j].0 < rows[i].0);
                        }
                        assert(false);
                    }
                    assert(false);
                }
            }
        }
        // the post-filter's verdict on the row
        assert(spec_row_passes(rec0, seq![f]) == Ok::<bool, DbError>(hit)) by {
            assert(seq![f][0] == f);
            assert(seq![f].drop_first() =~= Seq::<Filter>::empty());
            assert(spec_row_passes(rec0, Seq::<Filter>::empty()) == Ok::<bool, DbError>(true));
        }
        // both sides agree on the head and recurse on the rest
        let recs_all = rows_to_recs(suffix, names, ipk);
        assert(recs_all[0] == rec0);
        assert(recs_all.drop_first() =~= rows_to_recs(rows.skip(i + 1), names, ipk));
        if hit {
            assert(crate::btree::filter_ids(suffix, m) =~= seq![r0] + crate::btree::filter_ids(
                rows.skip(i + 1),
                m,
            ));
            let kept = rows_to_recs(crate::btree::filter_ids(suffix, m), names, ipk);
            assert(kept[0] == rec0);
            assert(kept.drop_first() =~= rows_to_recs(
                crate::btree::filter_ids(rows.skip(i + 1), m),
                names,
                ipk,
            ));
            assert(kept.len() > 0);
        } else {
            assert(crate::btree::filter_ids(suffix, m) =~= crate::btree::filter_ids(
                rows.skip(i + 1),
                m,
            ));
        }
    }
}

/// The row-ids the index yields
/// The row-ids the index yields for the first filter's value.
pub open spec fn matching_ids_of(
    entries: Seq<crate::btree::EntryV>,
    filters: Seq<Filter>,
) -> Seq<i64> {
    if filters.len() == 0 {
        Seq::empty()
    } else {
        crate::btree::matching_ids(entries, filters[0].column_value@)
    }
}

/// One more than the page count: the canonical walk budget.
fn fuel_of(file: &[u8], psize: usize) -> (r: usize)
    requires
        psize >= 2,
    ensures
        r as nat == crate::btree::spec_fuel(file@, psize as int),
{
    proof {
        let q = file@.len() as int / psize as int;
        vstd::arithmetic::div_mod::lemma_fundamental_div_mod(file@.len() as int, psize as int);
        vstd::arithmetic::div_mod::lemma_mod_bound(file@.len() as int, psize as int);
        vstd::arithmetic::div_mod::lemma_div_pos_is_pos(file@.len() as int, psize as int);
        assert(psize as int * q >= 2 * q) by (nonlinear_arith)
            requires
                q >= 0,
                psize as int >= 2,
        ;
    }
    file.len() / psize + 1
}

/// The first table with the given name.
fn table_by_name_in<'a>(db: &'a crate::database::Database, name: &str) -> (r: Option<
    &'a crate::database::TableSchema,
>)
    ensures
        match r {
            Some(t) => crate::database::spec_table_by_name(db.schema.objects@, name@) == Some(*t),
            None => crate::database::spec_table_by_name(db.schema.objects@, name@) is None,
        },
{
    let n = db.schema.objects.len();
    let mut i: usize = 0;
    proof {
        assert(db.schema.objects@.skip(0) =~= db.schema.objects@);
    }
    while i < n
        invariant
            i <= n,
            n == db.schema.objects@.len(),
            crate::database::spec_table_by_name(db.schema.objects@, name@)
                == crate::database::spec_table_by_name(
                db.schema.objects@.skip(i as int),
                name@,
            ),
        decreases n - i,
    {
        proof {
            assert(db.schema.objects@.skip(i as int)[0] == db.schema.objects@[i as int]);
            assert(db.schema.objects@.skip(i as int).drop_first() =~= db.schema.objects@.skip(
                i as int + 1,
            ));
        }
        match &db.schema.objects[i] {
            crate::database::ObjectSchema::Table(t) => {
                if crate::bytes::str_eq(t.name.as_str(), name) {
                    return Some(t);
                }
            },
            _ => {},
        }
        i = i + 1;
    }
    None
}

} // verus!



