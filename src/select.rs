use vstd::prelude::*;

use crate::db::{Database, DbError, ErrV, TableStateV, rows_view, rows_wf, table_pos, table_rows};
use crate::row::Row;
use crate::text::{chars_of, compare_chars, str_eq, string_of};
use crate::query::{Condition, Query, group_view, record_view, strings_view};
use crate::schema::DbConfig;
use crate::value::{Value, compare_values};
use crate::value::{find_char, push_range};
use crate::filter::where_holds;
use crate::query::QueryV;
use crate::row::{RowV, data_wf, live, row_get};
use crate::schema::{FieldV, TableV, fields_spec, type_spec};
use crate::text::{lex_cmp, seq_first_index};
use crate::value::{ValueV, compare_spec, value_text};

verus! {

/// One joined record: the rows that make it up, each under its alias; the
/// primary table's row comes first.
pub type TupleV = Seq<(Seq<char>, RowV)>;

/// One projected result: field names with the canonical text of their values.
pub type RecordV = Seq<(Seq<char>, Seq<char>)>;

/// The live rows, in order.
pub open spec fn live_rows(rows: Seq<RowV>, now: int) -> Seq<RowV>
    decreases rows.len(),
{
    if rows.len() == 0 {
        Seq::empty()
    } else {
        let rest = live_rows(rows.drop_last(), now);
        if live(rows.last(), now) { rest.push(rows.last()) } else { rest }
    }
}

/// The field named by a join operand: the part after the first `.`, up to
/// the next one; the whole operand where it has no `.`.
pub open spec fn field_part(s: Seq<char>) -> Seq<char> {
    let p = seq_first_index(s, '.');
    if p < 0 {
        s
    } else {
        let rest = s.subrange(p + 1, s.len() as int);
        let q = seq_first_index(rest, '.');
        if q < 0 { rest } else { rest.subrange(0, q) }
    }
}

/// An `alias.field` operand split at its first `.`; a bare field has an
/// empty alias.
pub open spec fn split_alias(s: Seq<char>) -> (Seq<char>, Seq<char>) {
    let p = seq_first_index(s, '.');
    if p < 0 { (Seq::empty(), s) } else { (s.subrange(0, p), s.subrange(p + 1, s.len() as int)) }
}

pub open spec fn text_of(v: Option<ValueV>) -> Option<Seq<char>> {
    match v {
        Some(x) => Some(value_text(x)),
        None => None,
    }
}

/// The first row whose `left` field has the given text; an absent key
/// matches nothing.
pub open spec fn join_match(rows: Seq<RowV>, left: Seq<char>, key: Option<Seq<char>>) -> Option<RowV>
    decreases rows.len(),
{
    if rows.len() == 0 || key is None {
        None
    } else if text_of(row_get(rows[0], left)) == key {
        Some(rows[0])
    } else {
        join_match(rows.drop_first(), left, key)
    }
}

/// One inner join: each record gains the first matching row of the joined
/// table, or is dropped.
pub open spec fn join_step(ts: Seq<TupleV>, jrows: Seq<RowV>, left: Seq<char>, right: Seq<char>, alias: Seq<char>) -> Seq<TupleV>
    decreases ts.len(),
{
    if ts.len() == 0 {
        Seq::empty()
    } else {
        let rest = join_step(ts.drop_last(), jrows, left, right, alias);
        let t = ts.last();
        match join_match(jrows, left, text_of(row_get(t[0].1, right))) {
            Some(jr) => rest.push(t.push((alias, jr))),
            None => rest,
        }
    }
}

/// The joins applied in order, against the live rows of each joined table.
pub open spec fn apply_joins(
    tables: Seq<TableStateV>,
    ts: Seq<TupleV>,
    joins: Seq<(Seq<char>, Seq<char>, Seq<char>, Seq<char>)>,
    now: int,
) -> Result<Seq<TupleV>, ErrV>
    decreases joins.len(),
{
    if joins.len() == 0 {
        Ok(ts)
    } else {
        match apply_joins(tables, ts, joins.drop_last(), now) {
            Err(e) => Err(e),
            Ok(cur) => {
                let j = joins.last();
                match table_rows(tables, j.0) {
                    None => Err(ErrV::TableNotFound(j.0)),
                    Some(rows) => Ok(join_step(cur, live_rows(rows, now), field_part(j.2), field_part(j.3), j.1)),
                }
            },
        }
    }
}

/// The row of a record that an alias names; the empty alias names the
/// primary table's row.
pub open spec fn tuple_pick(t: TupleV, alias: Seq<char>, primary: Seq<char>) -> Option<RowV>
    decreases t.len(),
{
    if t.len() == 0 {
        None
    } else if t[0].0 == alias || (alias.len() == 0 && t[0].0 == primary) {
        Some(t[0].1)
    } else {
        tuple_pick(t.drop_first(), alias, primary)
    }
}

pub open spec fn tuple_value(t: TupleV, alias: Seq<char>, field: Seq<char>, primary: Seq<char>) -> Option<ValueV> {
    match tuple_pick(t, alias, primary) {
        Some(r) => row_get(r, field),
        None => None,
    }
}

/// The table whose schema types an ordering field with that alias.
pub open spec fn order_table(q: QueryV, alias: Seq<char>) -> Seq<char> {
    if alias.len() == 0 || alias == q.alias {
        q.table
    } else {
        let i = seq_first_index(q.joins.map_values(|j: (Seq<char>, Seq<char>, Seq<char>, Seq<char>)| j.1), alias);
        if i < 0 { q.table } else { q.joins[i].0 }
    }
}

/// Whether record `a` goes strictly before record `b` in the requested order.
pub open spec fn order_before(cfg: Seq<TableV>, q: QueryV, field: Seq<char>, asc: bool, a: TupleV, b: TupleV) -> bool {
    let (alias, name) = split_alias(field);
    let t = type_spec(cfg, order_table(q, alias), name);
    let c = compare_spec(tuple_value(a, alias, name, q.alias), tuple_value(b, alias, name, q.alias), t);
    if asc { c < 0 } else { c > 0 }
}

/// Where `x` goes in `r`: before the first element it is strictly before.
pub open spec fn insert_pos<T>(r: Seq<T>, x: T, lt: spec_fn(T, T) -> bool) -> int
    decreases r.len(),
{
    if r.len() == 0 {
        0
    } else if lt(x, r[0]) {
        0
    } else {
        1 + insert_pos(r.drop_first(), x, lt)
    }
}

/// Stable insertion sort under a strict order.
pub open spec fn isort<T>(s: Seq<T>, lt: spec_fn(T, T) -> bool) -> Seq<T>
    decreases s.len(),
{
    if s.len() == 0 {
        s
    } else {
        let r = isort(s.drop_last(), lt);
        r.insert(insert_pos(r, s.last(), lt), s.last())
    }
}

/// The records in the requested order, if one is requested.
pub open spec fn order_spec(cfg: Seq<TableV>, q: QueryV, ts: Seq<TupleV>) -> Seq<TupleV> {
    match q.order_by {
        Some((f, asc)) => isort(ts, |a: TupleV, b: TupleV| order_before(cfg, q, f, asc, a, b)),
        None => ts,
    }
}

/// `offset` rows skipped, then at most `limit` kept, both clamped.
pub open spec fn page<T>(s: Seq<T>, offset: Option<usize>, limit: Option<usize>) -> Seq<T> {
    let off = match offset { Some(o) => o as int, None => 0 };
    let start = if off < s.len() { off } else { s.len() as int };
    let end = match limit {
        Some(l) => if start + l < s.len() { start + l } else { s.len() as int },
        None => s.len() as int,
    };
    s.subrange(start, end)
}

pub open spec fn is_star(fields: Seq<Seq<char>>) -> bool {
    fields == seq![seq!['*']]
}

pub open spec fn text_lt(a: Seq<char>, b: Seq<char>) -> bool {
    lex_cmp(a, b) < 0
}

/// The fields that `*` stands for: the declared fields of the primary table,
/// or, where it declares none, the row's own fields in lexicographic order.
pub open spec fn star_fields(cfg: Seq<TableV>, q: QueryV, t: TupleV) -> Seq<Seq<char>> {
    let decl = fields_spec(cfg, q.table).map_values(|f: FieldV| f.name);
    if decl.len() == 0 {
        isort(t[0].1.data.map_values(|e: (Seq<char>, ValueV)| e.0), |a: Seq<char>, b: Seq<char>| text_lt(a, b))
    } else {
        decl
    }
}

/// The value a requested field takes in a record.
pub open spec fn field_value(q: QueryV, t: TupleV, f: Seq<char>) -> Option<ValueV> {
    if is_star(q.fields) {
        row_get(t[0].1, f)
    } else {
        let (a, n) = split_alias(f);
        tuple_value(t, a, n, q.alias)
    }
}

/// The projection of a record onto the fields: each field that has a value,
/// once, in order.
pub open spec fn project(q: QueryV, t: TupleV, fields: Seq<Seq<char>>) -> RecordV
    decreases fields.len(),
{
    if fields.len() == 0 {
        Seq::empty()
    } else {
        let r = project(q, t, fields.drop_last());
        let f = fields.last();
        match field_value(q, t, f) {
            Some(x) => if r.map_values(|e: (Seq<char>, Seq<char>)| e.0).contains(f) {
                r
            } else {
                r.push((f, value_text(x)))
            },
            None => r,
        }
    }
}

pub open spec fn record_of(cfg: Seq<TableV>, q: QueryV, t: TupleV) -> RecordV {
    project(q, t, if is_star(q.fields) { star_fields(cfg, q, t) } else { q.fields })
}

/// The non-empty records, each kept at its first occurrence.
pub open spec fn dedupe(rs: Seq<RecordV>) -> Seq<RecordV>
    decreases rs.len(),
{
    if rs.len() == 0 {
        Seq::empty()
    } else {
        let d = dedupe(rs.drop_last());
        let r = rs.last();
        if r.len() == 0 || d.contains(r) { d } else { d.push(r) }
    }
}

/// One single-row record per row, under the alias.
pub open spec fn singleton_tuples(rows: Seq<RowV>, alias: Seq<char>) -> Seq<TupleV> {
    rows.map_values(|r: RowV| seq![(alias, r)])
}

/// The rows that meet the where clause, in order.
pub open spec fn where_rows(cfg: Seq<TableV>, table: Seq<char>, rows: Seq<RowV>, w: Seq<Seq<crate::query::CondV>>) -> Seq<RowV>
    decreases rows.len(),
{
    if rows.len() == 0 {
        Seq::empty()
    } else {
        let rest = where_rows(cfg, table, rows.drop_last(), w);
        if where_holds(cfg, table, rows.last(), w) { rest.push(rows.last()) } else { rest }
    }
}

/// What a select returns: the live rows of the primary table that meet the
/// where clause (whose conditions speak of that table alone), joined,
/// ordered, paged, projected and deduplicated; `None` where nothing is left.
pub open spec fn select_spec(tables: Seq<TableStateV>, cfg: Seq<TableV>, q: QueryV, now: int) -> Result<Option<Seq<RecordV>>, ErrV> {
    match table_rows(tables, q.table) {
        None => Err(ErrV::TableNotFound(q.table)),
        Some(rows) => {
            let base = live_rows(rows, now);
            if base.len() == 0 {
                Ok(None)
            } else {
                let start = singleton_tuples(where_rows(cfg, q.table, base, q.where_clauses), q.alias);
                match apply_joins(tables, start, q.joins, now) {
                    Err(e) => Err(e),
                    Ok(kept) => {
                        if kept.len() == 0 {
                            Ok(None)
                        } else {
                            let paged = page(order_spec(cfg, q, kept), q.offset, q.limit);
                            let out = dedupe(paged.map_values(|t: TupleV| record_of(cfg, q, t)));
                            if out.len() == 0 { Ok(None) } else { Ok(Some(out)) }
                        }
                    },
                }
            }
        },
    }
}


pub open spec fn tuple_view(t: Vec<(String, Row)>) -> TupleV {
    t@.map_values(|e: (String, Row)| (e.0@, e.1@))
}

pub open spec fn tuples_view(ts: Seq<Vec<(String, Row)>>) -> Seq<TupleV> {
    ts.map_values(|t: Vec<(String, Row)>| tuple_view(t))
}

/// Every row of the record is well formed, and there is a primary row.
pub open spec fn tuple_wf(t: TupleV) -> bool {
    t.len() > 0 && forall|k: int| 0 <= k < t.len() ==> data_wf(#[trigger] t[k].1.data)
}

pub open spec fn tuples_wf(ts: Seq<TupleV>) -> bool {
    forall|i: int| 0 <= i < ts.len() ==> tuple_wf(#[trigger] ts[i])
}

/// Copies of the live rows, in order.
pub fn live_copies(rows: &Vec<Row>, now: i64) -> (r: Vec<Row>)
    requires
        rows_wf(rows_view(rows@)),
    ensures
        rows_view(r@) == live_rows(rows_view(rows@), now as int),
        rows_wf(rows_view(r@)),
{
    let ghost src = rows_view(rows@);
    let mut r: Vec<Row> = Vec::new();
    let mut i: usize = 0;
    assert(src.subrange(0, 0) =~= Seq::<RowV>::empty());
    while i < rows.len()
        invariant
            i <= rows@.len(),
            src == rows_view(rows@),
            rows_wf(src),
            rows_view(r@) == live_rows(src.subrange(0, i as int), now as int),
            rows_wf(rows_view(r@)),
        decreases rows.len() - i,
    {
        assert(src.subrange(0, i + 1).drop_last() =~= src.subrange(0, i as int));
        assert(src[i as int] == rows@[i as int]@);
        if rows[i].is_live(now) {
            let ghost before = r@;
            let c = rows[i].copy();
            r.push(c);
            assert(r@ == before.push(c));
            assert(rows_view(r@) =~= rows_view(before).push(c@));
            assert(data_wf(src[i as int].data));
        }
        i = i + 1;
    }
    assert(src.subrange(0, i as int) =~= src);
    r
}

/// One single-row record per row, under the alias.
pub fn singletons(rows: Vec<Row>, alias: &String) -> (r: Vec<Vec<(String, Row)>>)
    requires
        rows_wf(rows_view(rows@)),
    ensures
        tuples_view(r@) == singleton_tuples(rows_view(rows@), alias@),
        tuples_wf(tuples_view(r@)),
{
    let ghost src = rows_view(rows@);
    let mut rest = rows;
    let mut r: Vec<Vec<(String, Row)>> = Vec::new();
    let mut i: usize = 0;
    let n = rest.len();
    while rest.len() > 0
        invariant
            i + rest@.len() == n,
            n == src.len(),
            rows_wf(src),
            rows_view(rest@) == src.subrange(i as int, n as int),
            tuples_view(r@) == src.subrange(0, i as int).map_values(|x: RowV| seq![(alias@, x)]),
            tuples_wf(tuples_view(r@)),
        decreases rest.len(),
    {
        let ghost rv = rest@;
        let x = rest.remove(0);
        assert(rest@ =~= rv.subrange(1, rv.len() as int));
        assert(rows_view(rv)[0] == rv[0]@);
        assert(x@ == src[i as int]);
        assert forall|k: int| 0 <= k < rest@.len() implies #[trigger] rows_view(rest@)[k] == src.subrange(i + 1, n as int)[k] by {
            assert(rest@[k] == rv[k + 1]);
            assert(rows_view(rv)[k + 1] == src.subrange(i as int, n as int)[k + 1]);
        }
        assert(rows_view(rest@) =~= src.subrange(i + 1, n as int));
        let mut t: Vec<(String, Row)> = Vec::new();
        t.push((alias.clone(), x));
        assert(tuple_view(t) =~= seq![(alias@, src[i as int])]);
        let ghost before = r@;
        r.push(t);
        assert(r@ == before.push(t));
        assert(tuples_view(r@) =~= tuples_view(before).push(tuple_view(t)));
        assert(src.subrange(0, i + 1) =~= src.subrange(0, i as int).push(src[i as int]));
        assert(src.subrange(0, i + 1).map_values(|x: RowV| seq![(alias@, x)])
            =~= src.subrange(0, i as int).map_values(|x: RowV| seq![(alias@, x)]).push(seq![(alias@, src[i as int])]));
        assert(tuples_view(r@) =~= src.subrange(0, i + 1).map_values(|x: RowV| seq![(alias@, x)]));
        assert(data_wf(src[i as int].data));
        assert(tuple_wf(tuple_view(t)));
        i = i + 1;
    }
    assert(src.subrange(0, i as int) =~= src);
    assert(src.map_values(|x: RowV| seq![(alias@, x)]) == singleton_tuples(src, alias@));
    r
}

/// The canonical text of a row's field, if it has one.
pub fn key_text(r: &Row, f: &str) -> (k: Option<String>)
    ensures
        match k {
            Some(s) => text_of(row_get(r@, f@)) == Some(s@),
            None => text_of(row_get(r@, f@)) is None,
        },
{
    match r.get(f) {
        Some(v) => Some(v.text()),
        None => None,
    }
}

fn opt_text_eq(a: &Option<String>, b: &Option<String>) -> (r: bool)
    ensures
        r == (match (a, b) {
            (Some(x), Some(y)) => x@ == y@,
            _ => false,
        }),
{
    match (a, b) {
        (Some(x), Some(y)) => str_eq(x.as_str(), y.as_str()),
        _ => false,
    }
}

pub open spec fn opt_view(k: Option<String>) -> Option<Seq<char>> {
    match k {
        Some(s) => Some(s@),
        None => None,
    }
}

/// The position of the first row whose `left` field has the given text.
pub fn join_match_exec(rows: &Vec<Row>, left: &str, key: &Option<String>) -> (r: Option<usize>)
    ensures
        match r {
            Some(i) => i < rows@.len() && join_match(rows_view(rows@), left@, opt_view(*key)) == Some(rows@[i as int]@),
            None => join_match(rows_view(rows@), left@, opt_view(*key)) is None,
        },
{
    let ghost src = rows_view(rows@);
    if key.is_none() {
        return None;
    }
    let mut i: usize = 0;
    assert(src.subrange(0, src.len() as int) =~= src);
    while i < rows.len()
        invariant
            i <= rows@.len(),
            key is Some,
            src == rows_view(rows@),
            join_match(src, left@, opt_view(*key)) == join_match(src.subrange(i as int, src.len() as int), left@, opt_view(*key)),
        decreases rows.len() - i,
    {
        let ghost tail = src.subrange(i as int, src.len() as int);
        assert(tail[0] == rows@[i as int]@);
        let k = key_text(&rows[i], left);
        if opt_text_eq(&k, key) {
            assert(text_of(row_get(tail[0], left@)) == opt_view(*key));
            return Some(i);
        }
        assert(tail.drop_first() =~= src.subrange(i + 1, src.len() as int));
        i = i + 1;
    }
    None
}

/// A copy of a record.
pub fn copy_tuple(t: &Vec<(String, Row)>) -> (r: Vec<(String, Row)>)
    ensures
        tuple_view(r) == tuple_view(*t),
{
    let mut r: Vec<(String, Row)> = Vec::new();
    let mut i: usize = 0;
    while i < t.len()
        invariant
            i <= t@.len(),
            tuple_view(r) == t@.subrange(0, i as int).map_values(|e: (String, Row)| (e.0@, e.1@)),
        decreases t.len() - i,
    {
        let ghost before = r@;
        let e = (t[i].0.clone(), t[i].1.copy());
        r.push(e);
        assert(r@ == before.push(e));
        assert(t@.subrange(0, i + 1) == t@.subrange(0, i as int).push(t@[i as int]));
        assert(tuple_view(r) =~= before.map_values(|e: (String, Row)| (e.0@, e.1@)).push((e.0@, e.1@)));
        assert(tuple_view(r) =~= t@.subrange(0, i + 1).map_values(|e: (String, Row)| (e.0@, e.1@)));
        i = i + 1;
    }
    assert(t@.subrange(0, i as int) =~= t@);
    r
}

/// One inner join, as `join_step` states.
pub fn join_step_exec(
    ts: &Vec<Vec<(String, Row)>>,
    jrows: &Vec<Row>,
    left: &str,
    right: &str,
    alias: &String,
) -> (r: Vec<Vec<(String, Row)>>)
    requires
        tuples_wf(tuples_view(ts@)),
        rows_wf(rows_view(jrows@)),
    ensures
        tuples_view(r@) == join_step(tuples_view(ts@), rows_view(jrows@), left@, right@, alias@),
        tuples_wf(tuples_view(r@)),
{
    let ghost src = tuples_view(ts@);
    let mut r: Vec<Vec<(String, Row)>> = Vec::new();
    let mut i: usize = 0;
    assert(src.subrange(0, 0) =~= Seq::<TupleV>::empty());
    while i < ts.len()
        invariant
            i <= ts@.len(),
            src == tuples_view(ts@),
            tuples_wf(src),
            rows_wf(rows_view(jrows@)),
            tuples_view(r@) == join_step(src.subrange(0, i as int), rows_view(jrows@), left@, right@, alias@),
            tuples_wf(tuples_view(r@)),
        decreases ts.len() - i,
    {
        assert(src.subrange(0, i + 1).drop_last() =~= src.subrange(0, i as int));
        let t = &ts[i];
        assert(src[i as int] == tuple_view(*t));
        assert(tuple_wf(src[i as int]));
        assert(t@.len() > 0);
        let k = key_text(&t[0].1, right);
        assert(tuple_view(*t)[0].1 == t@[0].1@);
        match join_match_exec(jrows, left, &k) {
            Some(j) => {
                let mut nt = copy_tuple(t);
                let jr = jrows[j].copy();
                let ghost nb = nt@;
                let e = (alias.clone(), jr);
                nt.push(e);
                assert(nt@ == nb.push(e));
                assert(tuple_view(nt) =~= tuple_view(*t).push((alias@, jrows@[j as int]@)));
                let ghost before = r@;
                r.push(nt);
                assert(r@ == before.push(nt));
                assert(tuples_view(r@) =~= tuples_view(before).push(tuple_view(nt)));
                assert(data_wf(rows_view(jrows@)[j as int].data));
                assert(tuple_wf(tuple_view(nt))) by {
                    assert forall|m: int| 0 <= m < tuple_view(nt).len() implies data_wf(#[trigger] tuple_view(nt)[m].1.data) by {
                        if m < tuple_view(*t).len() {
                            assert(tuple_view(nt)[m] == tuple_view(*t)[m]);
                        }
                    }
                }
            },
            None => {},
        }
        i = i + 1;
    }
    assert(src.subrange(0, i as int) =~= src);
    r
}

/// The field named by a join operand, as `field_part` states.
pub fn field_part_exec(s: &str) -> (r: String)
    ensures
        r@ == field_part(s@),
{
    let v = chars_of(s);
    let n = v.len();
    match find_char(&v, 0, '.') {
        None => {
            assert(v@.subrange(0, v@.len() as int) =~= v@);
            string_of(&v)
        },
        Some(p) => {
            assert(v@.subrange(0, v@.len() as int) =~= v@);
            let start = p + 1;
            let ghost rest = v@.subrange(start as int, v@.len() as int);
            let mut out: Vec<char> = Vec::new();
            match find_char(&v, start, '.') {
                None => {
                    push_range(&mut out, &v, start, v.len());
                    assert(out@ =~= rest);
                },
                Some(q) => {
                    push_range(&mut out, &v, start, start + q);
                    assert(out@ =~= rest.subrange(0, q as int));
                },
            }
            string_of(&out)
        },
    }
}


/// An operand split at its first `.`, as `split_alias` states.
pub fn split_alias_exec(s: &str) -> (r: (String, String))
    ensures
        (r.0@, r.1@) == split_alias(s@),
{
    let v = chars_of(s);
    let n = v.len();
    assert(v@.subrange(0, n as int) =~= v@);
    match find_char(&v, 0, '.') {
        None => {
            let e: Vec<char> = Vec::new();
            assert(e@ =~= Seq::<char>::empty());
            (string_of(&e), string_of(&v))
        },
        Some(p) => {
            let mut a: Vec<char> = Vec::new();
            push_range(&mut a, &v, 0, p);
            let mut b: Vec<char> = Vec::new();
            push_range(&mut b, &v, p + 1, n);
            assert(a@ =~= v@.subrange(0, p as int));
            assert(b@ =~= v@.subrange(p + 1, n as int));
            (string_of(&a), string_of(&b))
        },
    }
}

/// The row of a record that an alias names, as `tuple_pick` states.
pub fn tuple_pick_exec<'a>(t: &'a Vec<(String, Row)>, alias: &str, primary: &str) -> (r: Option<&'a Row>)
    ensures
        match r {
            Some(x) => tuple_pick(tuple_view(*t), alias@, primary@) == Some(x@),
            None => tuple_pick(tuple_view(*t), alias@, primary@) is None,
        },
        r matches Some(x) ==> exists|k: int| 0 <= k < t@.len() && t@[k].1@ == x@,
{
    let ghost src = tuple_view(*t);
    let empty_alias = chars_of(alias).len() == 0;
    let mut i: usize = 0;
    assert(src.subrange(0, src.len() as int) =~= src);
    while i < t.len()
        invariant
            i <= t@.len(),
            src == tuple_view(*t),
            empty_alias == (alias@.len() == 0),
            tuple_pick(src, alias@, primary@) == tuple_pick(src.subrange(i as int, src.len() as int), alias@, primary@),
        decreases t.len() - i,
    {
        let ghost tail = src.subrange(i as int, src.len() as int);
        assert(tail[0] == (t@[i as int].0@, t@[i as int].1@));
        let a = t[i].0.as_str();
        if str_eq(a, alias) || (empty_alias && str_eq(a, primary)) {
            return Some(&t[i].1);
        }
        assert(tail.drop_first() =~= src.subrange(i + 1, src.len() as int));
        i = i + 1;
    }
    None
}

/// The typing table for an ordering alias, as `order_table` states.
pub fn order_table_exec(q: &Query, alias: &str) -> (r: String)
    ensures
        r@ == order_table(q@, alias@),
{
    if chars_of(alias).len() == 0 || str_eq(alias, q.alias.as_str()) {
        return q.table.clone();
    }
    let ghost names = q@.joins.map_values(|j: (Seq<char>, Seq<char>, Seq<char>, Seq<char>)| j.1);
    let mut i: usize = 0;
    while i < q.joins.len()
        invariant
            i <= q.joins@.len(),
            names == q@.joins.map_values(|j: (Seq<char>, Seq<char>, Seq<char>, Seq<char>)| j.1),
            names.len() == q.joins@.len(),
            forall|k: int| 0 <= k < i ==> names[k] != alias@,
            alias@.len() != 0,
            alias@ != q@.alias,
        decreases q.joins.len() - i,
    {
        assert(names[i as int] == q.joins@[i as int].1@);
        if str_eq(q.joins[i].1.as_str(), alias) {
            proof {
                crate::text::lemma_seq_first_index(names, alias@, i as int);
            }
            return q.joins[i].0.clone();
        }
        i = i + 1;
    }
    proof {
        crate::text::lemma_seq_first_index(names, alias@, names.len() as int);
    }
    q.table.clone()
}

/// The value of the ordering field in a record.
fn order_value<'a>(t: &'a Vec<(String, Row)>, alias: &str, name: &str, primary: &str) -> (r: Option<&'a Value>)
    requires
        tuple_wf(tuple_view(*t)),
    ensures
        match r {
            Some(x) => tuple_value(tuple_view(*t), alias@, name@, primary@) == Some(x@) && crate::value::value_wf(x@),
            None => tuple_value(tuple_view(*t), alias@, name@, primary@) is None,
        },
{
    match tuple_pick_exec(t, alias, primary) {
        Some(row) => {
            let ghost k = choose|k: int| 0 <= k < t@.len() && t@[k].1@ == row@;
            assert(tuple_view(*t)[k].1 == row@);
            assert(data_wf(row@.data));
            proof {
                crate::filter::lemma_get_wf(row@, name@);
            }
            row.get(name)
        },
        None => None,
    }
}

proof fn lemma_insert_pos_step<T>(r: Seq<T>, x: T, lt: spec_fn(T, T) -> bool, j: int)
    requires
        0 <= j < r.len(),
        !lt(x, r[j]),
    ensures
        insert_pos(r.subrange(j, r.len() as int), x, lt) == 1 + insert_pos(r.subrange(j + 1, r.len() as int), x, lt),
{
    assert(r.subrange(j, r.len() as int).drop_first() =~= r.subrange(j + 1, r.len() as int));
}

/// The records in the requested order, as `order_spec` states: a stable
/// insertion sort.
#[verifier::rlimit(40)]
pub fn order_exec(cfg: &DbConfig, q: &Query, ts: Vec<Vec<(String, Row)>>) -> (r: Vec<Vec<(String, Row)>>)
    requires
        tuples_wf(tuples_view(ts@)),
    ensures
        tuples_view(r@) == order_spec(cfg@, q@, tuples_view(ts@)),
        tuples_wf(tuples_view(r@)),
{
    match &q.order_by {
        None => ts,
        Some((field, asc)) => {
            let ghost src = tuples_view(ts@);
            let ghost lt = |a: TupleV, b: TupleV| order_before(cfg@, q@, field@, *asc, a, b);
            let (alias, name) = split_alias_exec(field.as_str());
            let table = order_table_exec(q, alias.as_str());
            let ty = cfg.field_type(table.as_str(), name.as_str());
            let mut rest = ts;
            let n = rest.len();
            let mut out: Vec<Vec<(String, Row)>> = Vec::new();
            let mut i: usize = 0;
            assert(src.subrange(0, 0) =~= Seq::<TupleV>::empty());
            while rest.len() > 0
                invariant
                    i + rest@.len() == n,
                    n == src.len(),
                    tuples_wf(src),
                    tuples_view(rest@) == src.subrange(i as int, n as int),
                    tuples_view(out@) == isort(src.subrange(0, i as int), lt),
                    tuples_wf(tuples_view(out@)),
                    (alias@, name@) == split_alias(field@),
                    ty == type_spec(cfg@, order_table(q@, alias@), name@),
                    lt == (|a: TupleV, b: TupleV| order_before(cfg@, q@, field@, *asc, a, b)),
                decreases rest.len(),
            {
                let ghost rv = rest@;
                let x = rest.remove(0);
                assert(rest@ =~= rv.subrange(1, rv.len() as int));
                assert(tuples_view(rv)[0] == tuple_view(x));
                assert(tuple_view(x) == src[i as int]);
                assert forall|k: int| 0 <= k < rest@.len() implies #[trigger] tuples_view(rest@)[k] == src.subrange(i + 1, n as int)[k] by {
                    assert(rest@[k] == rv[k + 1]);
                    assert(tuples_view(rv)[k + 1] == src.subrange(i as int, n as int)[k + 1]);
                }
                assert(tuples_view(rest@) =~= src.subrange(i + 1, n as int));
                assert(src.subrange(0, i + 1).drop_last() =~= src.subrange(0, i as int));
                assert(src.subrange(0, i + 1).last() == src[i as int]);
                assert(tuple_wf(src[i as int]));
                let ghost ov = tuples_view(out@);
                let xv = order_value(&x, alias.as_str(), name.as_str(), q.alias.as_str());
                let mut j: usize = 0;
                let mut found = false;
                assert(ov.subrange(0, ov.len() as int) =~= ov);
                while j < out.len() && !found
                    invariant
                        j <= out@.len(),
                        found ==> j < out@.len() && lt(tuple_view(x), ov[j as int]),
                        ov == tuples_view(out@),
                        tuples_wf(ov),
                        tuple_wf(tuple_view(x)),
                        insert_pos(ov, tuple_view(x), lt) == j + insert_pos(ov.subrange(j as int, ov.len() as int), tuple_view(x), lt),
                        match xv {
                            Some(v) => tuple_value(tuple_view(x), alias@, name@, q@.alias) == Some(v@) && crate::value::value_wf(v@),
                            None => tuple_value(tuple_view(x), alias@, name@, q@.alias) is None,
                        },
                        (alias@, name@) == split_alias(field@),
                        ty == type_spec(cfg@, order_table(q@, alias@), name@),
                        lt == (|a: TupleV, b: TupleV| order_before(cfg@, q@, field@, *asc, a, b)),
                    decreases out.len() - j + (if found { 0int } else { 1int }),
                {
                    assert(ov[j as int] == tuple_view(out@[j as int]));
                    assert(tuple_wf(ov[j as int]));
                    let yv = order_value(&out[j], alias.as_str(), name.as_str(), q.alias.as_str());
                    let c = compare_values(xv, yv, ty);
                    let before = if *asc { c < 0 } else { c > 0 };
                    assert(before == lt(tuple_view(x), ov[j as int]));
                    if before {
                        found = true;
                    } else {
                        proof {
                            lemma_insert_pos_step(ov, tuple_view(x), lt, j as int);
                        }
                        j = j + 1;
                    }
                }
                proof {
                    if found {
                        assert(ov.subrange(j as int, ov.len() as int)[0] == ov[j as int]);
                    } else {
                        assert(ov.subrange(j as int, ov.len() as int) =~= Seq::<TupleV>::empty());
                    }
                }
                assert(insert_pos(ov, tuple_view(x), lt) == j as int);
                let ghost xw = tuple_view(x);
                out.insert(j, x);
                assert(tuples_view(out@) =~= ov.insert(j as int, xw));
                assert(tuples_wf(tuples_view(out@))) by {
                    assert forall|m: int| 0 <= m < tuples_view(out@).len() implies tuple_wf(#[trigger] tuples_view(out@)[m]) by {
                        if m < j {
                            assert(tuples_view(out@)[m] == ov[m]);
                        } else if m > j {
                            assert(tuples_view(out@)[m] == ov[m - 1]);
                        }
                    }
                }
                i = i + 1;
            }
            assert(src.subrange(0, i as int) =~= src);
            out
        },
    }
}

/// `offset` rows skipped, then at most `limit` kept, as `page` states.
pub fn page_exec(ts: Vec<Vec<(String, Row)>>, offset: Option<usize>, limit: Option<usize>) -> (r: Vec<Vec<(String, Row)>>)
    requires
        tuples_wf(tuples_view(ts@)),
    ensures
        tuples_view(r@) == page(tuples_view(ts@), offset, limit),
        tuples_wf(tuples_view(r@)),
{
    let ghost src = tuples_view(ts@);
    let n = ts.len();
    let off: usize = match offset { Some(o) => o, None => 0 };
    let start: usize = if off < n { off } else { n };
    let end: usize = match limit {
        Some(l) => if l < n - start { start + l } else { n },
        None => n,
    };
    let mut rest = ts;
    let mut tail = rest.split_off(start);
    tail.truncate(end - start);
    assert(tail@ =~= ts@.subrange(start as int, end as int));
    assert(tuples_view(tail@) =~= src.subrange(start as int, end as int));
    tail
}


pub open spec fn records_view(rs: Seq<Vec<(String, String)>>) -> Seq<RecordV> {
    rs.map_values(|r: Vec<(String, String)>| record_view(r))
}

pub open spec fn keys_view(r: RecordV) -> Seq<Seq<char>> {
    r.map_values(|e: (Seq<char>, Seq<char>)| e.0)
}

/// Whether a record has a field of that name.
fn record_has_key(r: &Vec<(String, String)>, f: &str) -> (b: bool)
    ensures
        b == keys_view(record_view(*r)).contains(f@),
{
    let ghost ks = keys_view(record_view(*r));
    let mut i: usize = 0;
    while i < r.len()
        invariant
            i <= r@.len(),
            ks == keys_view(record_view(*r)),
            ks.len() == r@.len(),
            forall|k: int| 0 <= k < i ==> ks[k] != f@,
        decreases r.len() - i,
    {
        assert(ks[i as int] == r@[i as int].0@);
        if str_eq(r[i].0.as_str(), f) {
            assert(ks[i as int] == f@);
            return true;
        }
        i = i + 1;
    }
    false
}

/// Whether two records are the same.
fn record_eq(a: &Vec<(String, String)>, b: &Vec<(String, String)>) -> (r: bool)
    ensures
        r == (record_view(*a) == record_view(*b)),
{
    if a.len() != b.len() {
        assert(record_view(*a).len() != record_view(*b).len());
        return false;
    }
    let mut i: usize = 0;
    while i < a.len()
        invariant
            i <= a@.len(),
            a@.len() == b@.len(),
            forall|k: int| 0 <= k < i ==> #[trigger] record_view(*a)[k] == record_view(*b)[k],
        decreases a.len() - i,
    {
        assert(record_view(*a)[i as int] == (a@[i as int].0@, a@[i as int].1@));
        assert(record_view(*b)[i as int] == (b@[i as int].0@, b@[i as int].1@));
        if !str_eq(a[i].0.as_str(), b[i].0.as_str()) || !str_eq(a[i].1.as_str(), b[i].1.as_str()) {
            return false;
        }
        i = i + 1;
    }
    assert(record_view(*a) =~= record_view(*b));
    true
}

/// Copies of a list of texts.
fn copy_strings(v: &Vec<String>) -> (r: Vec<String>)
    ensures
        strings_view(r@) == strings_view(v@),
{
    let mut r: Vec<String> = Vec::new();
    let mut i: usize = 0;
    while i < v.len()
        invariant
            i <= v@.len(),
            strings_view(r@) == strings_view(v@.subrange(0, i as int)),
        decreases v.len() - i,
    {
        let ghost before = r@;
        let s = v[i].clone();
        r.push(s);
        assert(r@ == before.push(s));
        assert(v@.subrange(0, i + 1) == v@.subrange(0, i as int).push(v@[i as int]));
        assert(strings_view(r@) =~= strings_view(before).push(s@));
        assert(strings_view(r@) =~= strings_view(v@.subrange(0, i + 1)));
        i = i + 1;
    }
    assert(v@.subrange(0, i as int) =~= v@);
    r
}

/// Texts in lexicographic order, as `isort` under `text_lt` states.
fn sort_texts(v: Vec<String>) -> (r: Vec<String>)
    ensures
        strings_view(r@) == isort(strings_view(v@), |a: Seq<char>, b: Seq<char>| text_lt(a, b)),
{
    let ghost src = strings_view(v@);
    let ghost lt = |a: Seq<char>, b: Seq<char>| text_lt(a, b);
    let mut rest = v;
    let n = rest.len();
    let mut out: Vec<String> = Vec::new();
    let mut i: usize = 0;
    assert(src.subrange(0, 0) =~= Seq::<Seq<char>>::empty());
    while rest.len() > 0
        invariant
            i + rest@.len() == n,
            n == src.len(),
            strings_view(rest@) == src.subrange(i as int, n as int),
            strings_view(out@) == isort(src.subrange(0, i as int), lt),
            lt == (|a: Seq<char>, b: Seq<char>| text_lt(a, b)),
        decreases rest.len(),
    {
        let ghost rv = rest@;
        let x = rest.remove(0);
        assert(rest@ =~= rv.subrange(1, rv.len() as int));
        assert(strings_view(rv)[0] == x@);
        assert forall|k: int| 0 <= k < rest@.len() implies #[trigger] strings_view(rest@)[k] == src.subrange(i + 1, n as int)[k] by {
            assert(rest@[k] == rv[k + 1]);
            assert(strings_view(rv)[k + 1] == src.subrange(i as int, n as int)[k + 1]);
        }
        assert(strings_view(rest@) =~= src.subrange(i + 1, n as int));
        assert(src.subrange(0, i + 1).drop_last() =~= src.subrange(0, i as int));
        assert(src.subrange(0, i + 1).last() == x@);
        let ghost ov = strings_view(out@);
        let xc = chars_of(x.as_str());
        let mut j: usize = 0;
        let mut found = false;
        assert(ov.subrange(0, ov.len() as int) =~= ov);
        while j < out.len() && !found
            invariant
                j <= out@.len(),
                found ==> j < out@.len() && lt(x@, ov[j as int]),
                ov == strings_view(out@),
                xc@ == x@,
                insert_pos(ov, x@, lt) == j + insert_pos(ov.subrange(j as int, ov.len() as int), x@, lt),
                lt == (|a: Seq<char>, b: Seq<char>| text_lt(a, b)),
            decreases out.len() - j + (if found { 0int } else { 1int }),
        {
            let yc = chars_of(out[j].as_str());
            assert(ov[j as int] == out@[j as int]@);
            if compare_chars(&xc, &yc) < 0 {
                found = true;
            } else {
                proof {
                    lemma_insert_pos_step(ov, x@, lt, j as int);
                }
                j = j + 1;
            }
        }
        proof {
            if found {
                assert(ov.subrange(j as int, ov.len() as int)[0] == ov[j as int]);
            } else {
                assert(ov.subrange(j as int, ov.len() as int) =~= Seq::<Seq<char>>::empty());
            }
        }
        let ghost xw = x@;
        out.insert(j, x);
        assert(strings_view(out@) =~= ov.insert(j as int, xw));
        i = i + 1;
    }
    assert(src.subrange(0, i as int) =~= src);
    out
}

/// Whether the field list is exactly `*`.
fn is_star_exec(fields: &Vec<String>) -> (r: bool)
    ensures
        r == is_star(strings_view(fields@)),
{
    if fields.len() != 1 {
        assert(strings_view(fields@).len() != 1);
        return false;
    }
    let c = chars_of(fields[0].as_str());
    let r = c.len() == 1 && c[0] == '*';
    assert(strings_view(fields@)[0] == fields@[0]@);
    if r {
        assert(fields@[0]@ =~= seq!['*']);
        assert(strings_view(fields@) =~= seq![seq!['*']]);
    } else {
        assert(strings_view(fields@)[0] != seq!['*']);
    }
    r
}

/// The fields that `*` stands for, as `star_fields` states.
fn star_fields_exec(cfg: &DbConfig, q: &Query, t: &Vec<(String, Row)>) -> (r: Vec<String>)
    requires
        t@.len() > 0,
    ensures
        strings_view(r@) == star_fields(cfg@, q@, tuple_view(*t)),
{
    let mut decl: Vec<String> = Vec::new();
    let ghost fs = fields_spec(cfg@, q@.table);
    match cfg.find_table(q.table.as_str()) {
        Some(tc) => {
            let mut i: usize = 0;
            while i < tc.fields.len()
                invariant
                    i <= tc.fields@.len(),
                    fs == tc@.fields,
                    fs.len() == tc.fields@.len(),
                    strings_view(decl@) == fs.subrange(0, i as int).map_values(|f: FieldV| f.name),
                decreases tc.fields.len() - i,
            {
                let ghost before = decl@;
                let s = tc.fields[i].name.clone();
                decl.push(s);
                assert(decl@ == before.push(s));
                assert(fs[i as int].name == s@);
                assert(fs.subrange(0, i + 1) == fs.subrange(0, i as int).push(fs[i as int]));
                assert(strings_view(decl@) =~= strings_view(before).push(s@));
                assert(fs.subrange(0, i + 1).map_values(|f: FieldV| f.name) =~= fs.subrange(0, i as int).map_values(|f: FieldV| f.name).push(fs[i as int].name));
                assert(strings_view(decl@) =~= fs.subrange(0, i + 1).map_values(|f: FieldV| f.name));
                i = i + 1;
            }
            assert(fs.subrange(0, i as int) =~= fs);
        },
        None => {
            assert(fs =~= Seq::<FieldV>::empty());
            assert(strings_view(decl@) =~= fs.map_values(|f: FieldV| f.name));
        },
    }
    if decl.len() > 0 {
        return decl;
    }
    let row = &t[0].1;
    let ghost d = row@.data;
    assert(tuple_view(*t)[0].1 == row@);
    let mut keys: Vec<String> = Vec::new();
    let mut i: usize = 0;
    while i < row.data.len()
        invariant
            i <= row.data@.len(),
            d == row@.data,
            d.len() == row.data@.len(),
            strings_view(keys@) == d.subrange(0, i as int).map_values(|e: (Seq<char>, ValueV)| e.0),
        decreases row.data.len() - i,
    {
        let ghost before = keys@;
        let s = row.data[i].0.clone();
        keys.push(s);
        assert(keys@ == before.push(s));
        assert(d[i as int].0 == s@);
        assert(d.subrange(0, i + 1) == d.subrange(0, i as int).push(d[i as int]));
        assert(strings_view(keys@) =~= strings_view(before).push(s@));
        assert(d.subrange(0, i + 1).map_values(|e: (Seq<char>, ValueV)| e.0) =~= d.subrange(0, i as int).map_values(|e: (Seq<char>, ValueV)| e.0).push(d[i as int].0));
        assert(strings_view(keys@) =~= d.subrange(0, i + 1).map_values(|e: (Seq<char>, ValueV)| e.0));
        i = i + 1;
    }
    assert(d.subrange(0, i as int) =~= d);
    sort_texts(keys)
}

/// The value a requested field takes in a record, as `field_value` states.
fn field_value_exec<'a>(q: &Query, star: bool, t: &'a Vec<(String, Row)>, f: &str) -> (r: Option<&'a Value>)
    requires
        t@.len() > 0,
        star == is_star(q@.fields),
    ensures
        match r {
            Some(x) => field_value(q@, tuple_view(*t), f@) == Some(x@),
            None => field_value(q@, tuple_view(*t), f@) is None,
        },
{
    if star {
        assert(tuple_view(*t)[0].1 == t@[0].1@);
        t[0].1.get(f)
    } else {
        let (a, n) = split_alias_exec(f);
        match tuple_pick_exec(t, a.as_str(), q.alias.as_str()) {
            Some(row) => row.get(n.as_str()),
            None => None,
        }
    }
}

/// The projection of a record, as `record_of` states.
pub fn record_exec(cfg: &DbConfig, q: &Query, t: &Vec<(String, Row)>) -> (r: Vec<(String, String)>)
    requires
        t@.len() > 0,
    ensures
        record_view(r) == record_of(cfg@, q@, tuple_view(*t)),
{
    let star = is_star_exec(&q.fields);
    let fields = if star { star_fields_exec(cfg, q, t) } else { copy_strings(&q.fields) };
    let ghost fv = strings_view(fields@);
    assert(fv == (if is_star(q@.fields) { star_fields(cfg@, q@, tuple_view(*t)) } else { q@.fields }));
    let mut r: Vec<(String, String)> = Vec::new();
    let mut i: usize = 0;
    assert(fv.subrange(0, 0) =~= Seq::<Seq<char>>::empty());
    while i < fields.len()
        invariant
            i <= fields@.len(),
            t@.len() > 0,
            star == is_star(q@.fields),
            fv == strings_view(fields@),
            record_view(r) == project(q@, tuple_view(*t), fv.subrange(0, i as int)),
        decreases fields.len() - i,
    {
        assert(fv.subrange(0, i + 1).drop_last() =~= fv.subrange(0, i as int));
        assert(fv.subrange(0, i + 1).last() == fields@[i as int]@);
        let f = &fields[i];
        match field_value_exec(q, star, t, f.as_str()) {
            Some(x) => {
                if !record_has_key(&r, f.as_str()) {
                    let ghost before = r@;
                    let e = (f.clone(), x.text());
                    r.push(e);
                    assert(r@ == before.push(e));
                    assert(record_view(r) =~= record_view_seq(before).push((e.0@, e.1@)));
                }
            },
            None => {},
        }
        i = i + 1;
    }
    assert(fv.subrange(0, i as int) =~= fv);
    r
}

pub open spec fn record_view_seq(r: Seq<(String, String)>) -> RecordV {
    crate::query::pairs_view(r)
}

/// The non-empty records, each kept at its first occurrence, as `dedupe` states.
pub fn dedupe_exec(rs: Vec<Vec<(String, String)>>) -> (r: Vec<Vec<(String, String)>>)
    ensures
        records_view(r@) == dedupe(records_view(rs@)),
{
    let ghost src = records_view(rs@);
    let mut rest = rs;
    let n = rest.len();
    let mut out: Vec<Vec<(String, String)>> = Vec::new();
    let mut i: usize = 0;
    assert(src.subrange(0, 0) =~= Seq::<RecordV>::empty());
    while rest.len() > 0
        invariant
            i + rest@.len() == n,
            n == src.len(),
            records_view(rest@) == src.subrange(i as int, n as int),
            records_view(out@) == dedupe(src.subrange(0, i as int)),
        decreases rest.len(),
    {
        let ghost rv = rest@;
        let x = rest.remove(0);
        assert(rest@ =~= rv.subrange(1, rv.len() as int));
        assert(records_view(rv)[0] == record_view(x));
        assert forall|k: int| 0 <= k < rest@.len() implies #[trigger] records_view(rest@)[k] == src.subrange(i + 1, n as int)[k] by {
            assert(rest@[k] == rv[k + 1]);
            assert(records_view(rv)[k + 1] == src.subrange(i as int, n as int)[k + 1]);
        }
        assert(records_view(rest@) =~= src.subrange(i + 1, n as int));
        assert(src.subrange(0, i + 1).drop_last() =~= src.subrange(0, i as int));
        assert(src.subrange(0, i + 1).last() == record_view(x));
        let ghost ov = records_view(out@);
        let mut seen = false;
        let mut j: usize = 0;
        while j < out.len()
            invariant
                j <= out@.len(),
                ov == records_view(out@),
                seen == (exists|k: int| 0 <= k < j && #[trigger] ov[k] == record_view(x)),
            decreases out.len() - j,
        {
            assert(ov[j as int] == record_view(out@[j as int]));
            if record_eq(&out[j], &x) {
                seen = true;
            }
            j = j + 1;
        }
        assert(seen == ov.contains(record_view(x)));
        if x.len() > 0 && !seen {
            let ghost before = out@;
            let ghost xv = record_view(x);
            out.push(x);
            assert(out@ == before.push(x));
            assert(records_view(out@) =~= records_view(before).push(xv));
        } else {
            assert(x.len() == 0 ==> record_view(x).len() == 0);
        }
        i = i + 1;
    }
    assert(src.subrange(0, i as int) =~= src);
    out
}


/// Once a join fails, the later joins keep the failure.
proof fn lemma_apply_joins_err(
    tables: Seq<TableStateV>,
    ts: Seq<TupleV>,
    joins: Seq<(Seq<char>, Seq<char>, Seq<char>, Seq<char>)>,
    k: int,
    now: int,
)
    requires
        0 <= k <= joins.len(),
        apply_joins(tables, ts, joins.subrange(0, k), now) is Err,
    ensures
        apply_joins(tables, ts, joins, now) == apply_joins(tables, ts, joins.subrange(0, k), now),
    decreases joins.len() - k,
{
    if k < joins.len() {
        assert(joins.subrange(0, k + 1).drop_last() =~= joins.subrange(0, k));
        lemma_apply_joins_err(tables, ts, joins, k + 1, now);
    } else {
        assert(joins.subrange(0, k) =~= joins);
    }
}

pub open spec fn results_view(r: Option<Vec<Vec<(String, String)>>>) -> Option<Seq<RecordV>> {
    match r {
        Some(v) => Some(records_view(v@)),
        None => None,
    }
}

impl Database {
    /// Runs a select query at time `now`, as `select_spec` states.
    #[verifier::rlimit(60)]
    pub fn execute_select(&self, q: &Query, now: i64) -> (r: Result<Option<Vec<Vec<(String, String)>>>, DbError>)
        requires
            self.wf(),
        ensures
            match r {
                Ok(v) => select_spec(self@.tables, self@.config, q@, now as int) == Ok::<Option<Seq<RecordV>>, ErrV>(results_view(v)),
                Err(e) => select_spec(self@.tables, self@.config, q@, now as int) == Err::<Option<Seq<RecordV>>, ErrV>(e@),
            },
    {
        let ghost tables = self@.tables;
        let idx = match self.find_table(q.table.as_str()) {
            None => {
                return Err(DbError::TableNotFound(q.table.clone()));
            },
            Some(i) => i,
        };
        assert(tables[idx as int] == self.tables@[idx as int]@);
        assert(rows_wf(tables[idx as int].rows));
        let base = live_copies(&self.tables[idx].rows, now);
        if base.len() == 0 {
            return Ok(None);
        }
        let filtered = self.filtered_rows(idx, q, now);
        let ghost start = singleton_tuples(rows_view(filtered@), q@.alias);
        let mut ts = singletons(filtered, &q.alias);
        let mut k: usize = 0;
        assert(q@.joins.subrange(0, 0) =~= Seq::<(Seq<char>, Seq<char>, Seq<char>, Seq<char>)>::empty());
        while k < q.joins.len()
            invariant
                k <= q.joins@.len(),
                self.wf(),
                tables == self@.tables,
                table_rows(tables, q@.table) is Some,
                live_rows(table_rows(tables, q@.table).unwrap(), now as int).len() > 0,
                start == singleton_tuples(where_rows(self@.config, q@.table, live_rows(table_rows(tables, q@.table).unwrap(), now as int), q@.where_clauses), q@.alias),
                apply_joins(tables, start, q@.joins.subrange(0, k as int), now as int) == Ok::<Seq<TupleV>, ErrV>(tuples_view(ts@)),
                tuples_wf(tuples_view(ts@)),
            decreases q.joins.len() - k,
        {
            let j = &q.joins[k];
            assert(q@.joins.subrange(0, k + 1).drop_last() =~= q@.joins.subrange(0, k as int));
            assert(q@.joins.subrange(0, k + 1).last() == (j.0@, j.1@, j.2@, j.3@));
            let jdx = match self.find_table(j.0.as_str()) {
                None => {
                    proof {
                        assert(table_rows(tables, j.0@) is None);
                        assert(apply_joins(tables, start, q@.joins.subrange(0, k + 1), now as int) == Err::<Seq<TupleV>, ErrV>(ErrV::TableNotFound(j.0@)));
                        lemma_apply_joins_err(tables, start, q@.joins, k + 1, now as int);
                    }
                    return Err(DbError::TableNotFound(j.0.clone()));
                },
                Some(i) => i,
            };
            assert(tables[jdx as int] == self.tables@[jdx as int]@);
            assert(rows_wf(tables[jdx as int].rows));
            let jrows = live_copies(&self.tables[jdx].rows, now);
            let left = field_part_exec(j.2.as_str());
            let right = field_part_exec(j.3.as_str());
            ts = join_step_exec(&ts, &jrows, left.as_str(), right.as_str(), &j.1);
            k = k + 1;
        }
        assert(q@.joins.subrange(0, k as int) =~= q@.joins);
        let kept = ts;
        if kept.len() == 0 {
            return Ok(None);
        }
        let sorted = order_exec(&self.config, q, kept);
        let paged = page_exec(sorted, q.offset, q.limit);
        let ghost pv = tuples_view(paged@);
        let mut recs: Vec<Vec<(String, String)>> = Vec::new();
        let mut i: usize = 0;
        while i < paged.len()
            invariant
                i <= paged@.len(),
                pv == tuples_view(paged@),
                tuples_wf(pv),
                records_view(recs@) == pv.subrange(0, i as int).map_values(|t: TupleV| record_of(self@.config, q@, t)),
            decreases paged.len() - i,
        {
            assert(pv[i as int] == tuple_view(paged@[i as int]));
            assert(tuple_wf(pv[i as int]));
            let rec = record_exec(&self.config, q, &paged[i]);
            let ghost before = recs@;
            recs.push(rec);
            assert(recs@ == before.push(rec));
            assert(records_view(recs@) =~= records_view(before).push(record_view(rec)));
            assert(pv.subrange(0, i + 1) == pv.subrange(0, i as int).push(pv[i as int]));
            assert(records_view(recs@) =~= pv.subrange(0, i + 1).map_values(|t: TupleV| record_of(self@.config, q@, t)));
            i = i + 1;
        }
        assert(pv.subrange(0, i as int) =~= pv);
        let out = dedupe_exec(recs);
        if out.len() == 0 {
            Ok(None)
        } else {
            Ok(Some(out))
        }
    }
}


/// Whether the id is listed.
fn ids_contain(ids: &Vec<i32>, id: i32) -> (r: bool)
    ensures
        r == crate::index::ids_view(ids@).contains(id as int),
{
    let ghost iv = crate::index::ids_view(ids@);
    let mut k: usize = 0;
    while k < ids.len()
        invariant
            k <= ids@.len(),
            iv == crate::index::ids_view(ids@),
            forall|m: int| 0 <= m < k ==> iv[m] != id as int,
        decreases ids.len() - k,
    {
        assert(iv[k as int] == ids@[k as int] as int);
        if ids[k] == id {
            return true;
        }
        k = k + 1;
    }
    false
}

impl Database {
    /// Whether row `i` of the table at `tpos` carries `v` in field `f`,
    /// answered by the secondary index where the field has one.
    fn check_eq_indexed(&self, tpos: usize, i: usize, table: &str, f: &str, v: &str) -> (b: bool)
        requires
            self.wf(),
            tpos < self@.tables.len(),
            table_pos(self@.tables, table@) == tpos as int,
            i < self@.tables[tpos as int].rows.len(),
        ensures
            b == (match row_get(self@.tables[tpos as int].rows[i as int], f@) {
                Some(x) => value_text(x) == v@,
                None => false,
            }),
    {
        let ghost rows = self@.tables[tpos as int].rows;
        let ghost r = rows[i as int];
        assert(rows == rows_view(self.tables@[tpos as int].rows@));
        assert(r == self.tables@[tpos as int].rows@[i as int]@);
        match self.index_lookup(table, f, v) {
            Some(ids) => {
                let id = self.tables[tpos].rows[i].id;
                let found = ids_contain(&ids, id);
                proof {
                    crate::index::lemma_lookup_matches_rows(self@, table@, f@, v@);
                    assert(crate::index::rows_or_empty(self@.tables, table@) == rows);
                    assert(crate::db::ids_unique(rows));
                    let hit = text_of(row_get(r, f@)) == Some(v@);
                    if found {
                        assert(crate::index::ids_view(ids@).to_set().contains(r.id));
                        let j = choose|j: int| 0 <= j < rows.len() && rows[j].id == r.id && text_of(row_get(rows[j], f@)) == Some(v@);
                        if j != i {
                            if j < i {
                                assert(rows[j].id != rows[i as int].id);
                            } else {
                                assert(rows[i as int].id != rows[j].id);
                            }
                        }
                    } else if hit {
                        assert(!crate::index::ids_view(ids@).to_set().contains(r.id));
                        assert(rows[i as int].id == r.id);
                    }
                }
                found
            },
            None => match self.tables[tpos].rows[i].get(f) {
                Some(x) => {
                    let t = x.text();
                    str_eq(t.as_str(), v)
                },
                None => false,
            },
        }
    }

    /// Whether row `i` of the table at `tpos` meets the condition, as
    /// `cond_holds` states; `=` and `in` go through the secondary index
    /// where the field has one.
    fn check_condition_indexed(&self, tpos: usize, i: usize, table: &str, c: &Condition) -> (b: bool)
        requires
            self.wf(),
            tpos < self@.tables.len(),
            table_pos(self@.tables, table@) == tpos as int,
            i < self@.tables[tpos as int].rows.len(),
        ensures
            b == crate::filter::cond_holds(self@.config, table@, self@.tables[tpos as int].rows[i as int], c@),
    {
        let ghost rows = self@.tables[tpos as int].rows;
        assert(rows == rows_view(self.tables@[tpos as int].rows@));
        assert(rows[i as int] == self.tables@[tpos as int].rows@[i as int]@);
        assert(rows_wf(rows));
        match c {
            Condition::Eq(f, v) => self.check_eq_indexed(tpos, i, table, f.as_str(), v.as_str()),
            Condition::In(f, vs) => {
                let mut k: usize = 0;
                while k < vs.len()
                    invariant
                        k <= vs@.len(),
                        self.wf(),
                        tpos < self@.tables.len(),
                        table_pos(self@.tables, table@) == tpos as int,
                        i < self@.tables[tpos as int].rows.len(),
                        rows == self@.tables[tpos as int].rows,
                        c@ == crate::query::CondV::In(f@, strings_view(vs@)),
                        forall|m: int| 0 <= m < k ==> !(match row_get(rows[i as int], f@) {
                            Some(x) => value_text(x) == #[trigger] vs@[m]@,
                            None => false,
                        }),
                    decreases vs.len() - k,
                {
                    if self.check_eq_indexed(tpos, i, table, f.as_str(), vs[k].as_str()) {
                        proof {
                            let vsv = strings_view(vs@);
                            assert(vsv[k as int] == vs@[k as int]@);
                            match row_get(rows[i as int], f@) {
                                Some(x) => {
                                    assert(value_text(x) == vsv[k as int]);
                                    assert(vsv.contains(value_text(x)));
                                },
                                None => {},
                            }
                        }
                        return true;
                    }
                    k = k + 1;
                }
                proof {
                    let vsv = strings_view(vs@);
                    match row_get(rows[i as int], f@) {
                        Some(x) => {
                            if vsv.contains(value_text(x)) {
                                let m = choose|m: int| 0 <= m < vsv.len() && vsv[m] == value_text(x);
                                assert(vsv[m] == vs@[m]@);
                            }
                        },
                        None => {},
                    }
                }
                false
            },
            Condition::Contains(f, v) => {
                if crate::filter::fulltext_field(&self.config, table, f.as_str()) {
                    self.check_contains_indexed(tpos, i, table, f.as_str(), v.as_str())
                } else {
                    crate::filter::check_condition(&self.config, table, &self.tables[tpos].rows[i], c)
                }
            },
            _ => crate::filter::check_condition(&self.config, table, &self.tables[tpos].rows[i], c),
        }
    }

    /// Whether row `i` of the table at `tpos` has a word in field `f` that
    /// contains `q`, ignoring case; answered by the full-text index where the
    /// field has one.
    fn check_contains_indexed(&self, tpos: usize, i: usize, table: &str, f: &str, q: &str) -> (b: bool)
        requires
            self.wf(),
            tpos < self@.tables.len(),
            table_pos(self@.tables, table@) == tpos as int,
            i < self@.tables[tpos as int].rows.len(),
        ensures
            b == (match row_get(self@.tables[tpos as int].rows[i as int], f@) {
                Some(x) => crate::filter::text_contains(x, q@, true),
                None => false,
            }),
    {
        let ghost rows = self@.tables[tpos as int].rows;
        let ghost r = rows[i as int];
        assert(rows == rows_view(self.tables@[tpos as int].rows@));
        assert(r == self.tables@[tpos as int].rows@[i as int]@);
        let ghost lq = crate::text::lower_of(q@);
        let ghost expected = match row_get(r, f@) {
            Some(x) => crate::filter::text_contains(x, q@, true),
            None => false,
        };
        proof {
            match row_get(r, f@) {
                Some(x) => {
                    let ws = crate::text::words_of(value_text(x));
                    let ks = crate::index::row_keys(r, f@, true);
                    assert(ks == ws.map_values(|w: Seq<char>| crate::text::lower_of(w)));
                    if expected {
                        let m = choose|m: int| #![trigger ws[m]] 0 <= m < ws.len() && crate::text::has_substring(crate::text::lower_of(ws[m]), lq);
                        assert(ks[m] == crate::text::lower_of(ws[m]));
                    }
                    if crate::index::row_hits(r, f@, lq) {
                        let m = choose|m: int| 0 <= m < ks.len() && crate::text::has_substring(#[trigger] ks[m], lq);
                        assert(ks[m] == crate::text::lower_of(ws[m]));
                        assert(crate::text::has_substring(crate::text::lower_of(ws[m]), lq));
                    }
                    assert(expected == crate::index::row_hits(r, f@, lq));
                },
                None => {
                    assert(crate::index::row_keys(r, f@, true) =~= Seq::<Seq<char>>::empty());
                    assert(!crate::index::row_hits(r, f@, lq));
                },
            }
        }
        match self.fulltext_lookup(table, f, q) {
            Some(ids) => {
                let id = self.tables[tpos].rows[i].id;
                let found = ids_contain(&ids, id);
                proof {
                    let ixs = self@.indexes;
                    let p = crate::index::find_index(ixs, table@, f@, true);
                    let keys = ixs.map_values(|x: crate::index::IndexV| crate::index::index_key(x));
                    crate::index::lemma_first_index_props(keys, (table@, f@, true));
                    assert(crate::index::index_key(ixs[p]) == (table@, f@, true));
                    crate::index::lemma_index_set_built(self@.config, self@.tables, p);
                    assert(crate::index::rows_or_empty(self@.tables, table@) == rows);
                    crate::index::lemma_fulltext_exact(rows, f@, q@, r.id);
                    assert(crate::db::ids_unique(rows));
                    if found {
                        let j = choose|j: int| 0 <= j < rows.len() && rows[j].id == r.id && #[trigger] crate::index::row_hits(rows[j], f@, lq);
                        if j != i {
                            if j < i {
                                assert(rows[j].id != rows[i as int].id);
                            } else {
                                assert(rows[i as int].id != rows[j].id);
                            }
                        }
                    } else if crate::index::row_hits(r, f@, lq) {
                        assert(rows[i as int].id == r.id && crate::index::row_hits(rows[i as int], f@, lq));
                    }
                }
                found
            },
            None => match self.tables[tpos].rows[i].get(f) {
                Some(x) => crate::filter::check_contains(x, q, true),
                None => false,
            },
        }
    }

    /// Whether row `i` of the table at `tpos` meets the where clause, as
    /// `where_holds` states.
    fn check_where_indexed(&self, tpos: usize, i: usize, table: &str, w: &Vec<Vec<Condition>>) -> (b: bool)
        requires
            self.wf(),
            tpos < self@.tables.len(),
            table_pos(self@.tables, table@) == tpos as int,
            i < self@.tables[tpos as int].rows.len(),
        ensures
            b == where_holds(self@.config, table@, self@.tables[tpos as int].rows[i as int], w@.map_values(|g: Vec<Condition>| group_view(g))),
    {
        let ghost wv = w@.map_values(|g: Vec<Condition>| group_view(g));
        let ghost r = self@.tables[tpos as int].rows[i as int];
        if w.len() == 0 {
            return true;
        }
        let mut gi: usize = 0;
        while gi < w.len()
            invariant
                gi <= w@.len(),
                self.wf(),
                tpos < self@.tables.len(),
                table_pos(self@.tables, table@) == tpos as int,
                i < self@.tables[tpos as int].rows.len(),
                r == self@.tables[tpos as int].rows[i as int],
                wv == w@.map_values(|g: Vec<Condition>| group_view(g)),
                forall|k: int| 0 <= k < gi ==> !crate::filter::group_holds(self@.config, table@, r, #[trigger] wv[k]),
            decreases w.len() - gi,
        {
            let g = &w[gi];
            assert(wv[gi as int] == group_view(*g));
            let mut all = true;
            let mut j: usize = 0;
            while j < g.len()
                invariant
                    j <= g@.len(),
                    gi < w@.len(),
                    wv.len() == w@.len(),
                    self.wf(),
                    tpos < self@.tables.len(),
                    table_pos(self@.tables, table@) == tpos as int,
                    i < self@.tables[tpos as int].rows.len(),
                    r == self@.tables[tpos as int].rows[i as int],
                    wv[gi as int] == group_view(*g),
                    all == (forall|m: int| 0 <= m < j ==> crate::filter::cond_holds(self@.config, table@, r, #[trigger] wv[gi as int][m])),
                decreases g.len() - j,
            {
                let h = self.check_condition_indexed(tpos, i, table, &g[j]);
                assert(wv[gi as int][j as int] == g@[j as int]@);
                if !h {
                    all = false;
                }
                j = j + 1;
            }
            if all {
                assert(crate::filter::group_holds(self@.config, table@, r, wv[gi as int]));
                return true;
            }
            gi = gi + 1;
        }
        false
    }

    /// Copies of the live rows of the table at `tpos` that meet the query's
    /// where clause, in order.
    fn filtered_rows(&self, tpos: usize, q: &Query, now: i64) -> (r: Vec<Row>)
        requires
            self.wf(),
            tpos < self@.tables.len(),
            table_pos(self@.tables, q@.table) == tpos as int,
        ensures
            rows_view(r@) == where_rows(self@.config, q@.table, live_rows(self@.tables[tpos as int].rows, now as int), q@.where_clauses),
            rows_wf(rows_view(r@)),
    {
        let ghost src = self@.tables[tpos as int].rows;
        assert(src == rows_view(self.tables@[tpos as int].rows@));
        assert(rows_wf(src));
        let mut r: Vec<Row> = Vec::new();
        let mut i: usize = 0;
        let n = self.tables[tpos].rows.len();
        assert(src.subrange(0, 0) =~= Seq::<RowV>::empty());
        while i < n
            invariant
                i <= n,
                n == src.len(),
                self.wf(),
                tpos < self@.tables.len(),
                table_pos(self@.tables, q@.table) == tpos as int,
                src == self@.tables[tpos as int].rows,
                rows_wf(src),
                rows_view(r@) == where_rows(self@.config, q@.table, live_rows(src.subrange(0, i as int), now as int), q@.where_clauses),
                rows_wf(rows_view(r@)),
            decreases n - i,
        {
            assert(src.subrange(0, i + 1).drop_last() =~= src.subrange(0, i as int));
            assert(src.subrange(0, i + 1).last() == src[i as int]);
            assert(src[i as int] == self.tables@[tpos as int].rows@[i as int]@);
            let ghost lp = live_rows(src.subrange(0, i as int), now as int);
            let ghost row = src[i as int];
            assert(lp.push(row).drop_last() =~= lp);
            if self.tables[tpos].rows[i].is_live(now) && self.check_where_indexed(tpos, i, q.table.as_str(), &q.where_clauses) {
                let c = self.tables[tpos].rows[i].copy();
                let ghost before = r@;
                r.push(c);
                assert(r@ == before.push(c));
                assert(rows_view(r@) =~= rows_view(before).push(c@));
                assert(data_wf(src[i as int].data));
            }
            i = i + 1;
        }
        assert(src.subrange(0, i as int) =~= src);
        r
    }
}


proof fn lemma_insert_pos_props<T>(r: Seq<T>, x: T, lt: spec_fn(T, T) -> bool)
    ensures
        0 <= insert_pos(r, x, lt) <= r.len(),
        forall|k: int| 0 <= k < insert_pos(r, x, lt) ==> !lt(x, #[trigger] r[k]),
        insert_pos(r, x, lt) < r.len() ==> lt(x, r[insert_pos(r, x, lt)]),
    decreases r.len(),
{
    if r.len() > 0 && !lt(x, r[0]) {
        lemma_insert_pos_props(r.drop_first(), x, lt);
        assert forall|k: int| 0 <= k < insert_pos(r, x, lt) implies !lt(x, #[trigger] r[k]) by {
            if k > 0 {
                assert(r[k] == r.drop_first()[k - 1]);
            }
        }
    }
}

/// Under an asymmetric strict order, a stable insertion sort leaves no
/// element strictly before its predecessor.
pub proof fn lemma_isort_sorted<T>(s: Seq<T>, lt: spec_fn(T, T) -> bool)
    requires
        forall|a: T, b: T| #[trigger] lt(a, b) ==> !lt(b, a),
    ensures
        isort(s, lt).len() == s.len(),
        forall|i: int| 0 <= i < isort(s, lt).len() - 1 ==> !lt(#[trigger] isort(s, lt)[i + 1], isort(s, lt)[i]),
    decreases s.len(),
{
    if s.len() > 0 {
        let r = isort(s.drop_last(), lt);
        let x = s.last();
        lemma_isort_sorted(s.drop_last(), lt);
        lemma_insert_pos_props(r, x, lt);
        let j = insert_pos(r, x, lt);
        let out = r.insert(j, x);
        assert forall|i: int| 0 <= i < out.len() - 1 implies !lt(#[trigger] out[i + 1], out[i]) by {
            if i + 1 < j {
                assert(out[i] == r[i] && out[i + 1] == r[i + 1]);
                assert(!lt(r[i + 1], r[i]));
            } else if i + 1 == j {
                assert(out[i] == r[i] && out[i + 1] == x);
                assert(!lt(x, r[i]));
            } else if i == j {
                assert(j < r.len());
                assert(out[i] == x && out[i + 1] == r[j]);
                assert(lt(x, r[j]));
                assert(!lt(r[j], x));
            } else {
                assert(out[i] == r[i - 1] && out[i + 1] == r[i]);
                assert(!lt(r[(i - 1) + 1], r[i - 1]));
            }
        }
    }
}

/// Ordered select output keeps each record in order after its predecessor:
/// no record goes strictly before the one listed ahead of it.
pub proof fn lemma_order_sorted(cfg: Seq<TableV>, q: QueryV, ts: Seq<TupleV>, f: Seq<char>, asc: bool)
    requires
        q.order_by == Some((f, asc)),
    ensures
        order_spec(cfg, q, ts).len() == ts.len(),
        forall|i: int| 0 <= i < order_spec(cfg, q, ts).len() - 1
            ==> !order_before(cfg, q, f, asc, #[trigger] order_spec(cfg, q, ts)[i + 1], order_spec(cfg, q, ts)[i]),
{
    let lt = |a: TupleV, b: TupleV| order_before(cfg, q, f, asc, a, b);
    assert forall|a: TupleV, b: TupleV| #[trigger] lt(a, b) implies !lt(b, a) by {
        let (alias, name) = split_alias(f);
        let t = type_spec(cfg, order_table(q, alias), name);
        crate::value::lemma_compare_antisymmetric(tuple_value(a, alias, name, q.alias), tuple_value(b, alias, name, q.alias), t);
    }
    lemma_isort_sorted(ts, lt);
}

} // verus!
