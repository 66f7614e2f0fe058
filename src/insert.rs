use vstd::prelude::*;

use crate::db::{Database, DbError, ErrV, TableStateV, Table, ids_unique, rows_view, rows_wf, table_pos, tables_wf};
use crate::query::{Query, QueryV, record_view};
use crate::select::RecordV;
use crate::row::{Row, RowV, copy_data, data_set, other_key, data_view, data_wf, live, row_get, set_field};
use crate::schema::{DbConfig, TableV, autoincrement_names, fields_spec, type_spec, unique_names};
use crate::text::{assoc_get, str_eq};
use crate::value::{Decimal, Value, ValueV, int_parse, parse_int, parse_spec, pow10, value_text, value_wf};

verus! {

pub open spec fn ttl_key() -> Seq<char> {
    seq!['t', 't', 'l']
}

/// A record's fields read as values of their declared types (text where
/// undeclared), `ttl` aside; the first literal that does not read fails.
pub open spec fn typed_data(cfg: Seq<TableV>, table: Seq<char>, rec: RecordV) -> Result<Seq<(Seq<char>, ValueV)>, ErrV>
    decreases rec.len(),
{
    if rec.len() == 0 {
        Ok(Seq::empty())
    } else {
        match typed_data(cfg, table, rec.drop_last()) {
            Err(e) => Err(e),
            Ok(d) => {
                let k = rec.last().0;
                let v = rec.last().1;
                if k == ttl_key() {
                    Ok(d)
                } else {
                    match parse_spec(type_spec(cfg, table, k), v) {
                        Some(x) => Ok(data_set(d, k, x)),
                        None => Err(ErrV::InvalidValue(k, v)),
                    }
                }
            },
        }
    }
}

/// Whether some live row other than `except` holds, in field `f`, a value
/// with the same canonical text as `x` (whatever its kind: a field keeps
/// its old values when its declared type changes).
pub open spec fn has_dup(rows: Seq<RowV>, f: Seq<char>, x: ValueV, now: int, except: Option<int>) -> bool {
    exists|i: int| #![trigger rows[i]] 0 <= i < rows.len() && live(rows[i], now) && except != Some(rows[i].id)
        && crate::select::text_of(row_get(rows[i], f)) == Some(value_text(x))
}

/// The first unique field whose supplied literal collides with a live row.
pub open spec fn literal_dup(rows: Seq<RowV>, uniq: Seq<Seq<char>>, rec: RecordV, data: Seq<(Seq<char>, ValueV)>, now: int) -> Option<ErrV>
    decreases uniq.len(),
{
    if uniq.len() == 0 {
        None
    } else {
        match literal_dup(rows, uniq.drop_last(), rec, data, now) {
            Some(e) => Some(e),
            None => {
                let f = uniq.last();
                match (assoc_get(rec, f), assoc_get(data, f)) {
                    (Some(lit), Some(x)) => if has_dup(rows, f, x, now, None) {
                        Some(ErrV::DuplicateValue(f, lit))
                    } else {
                        None
                    },
                    _ => None,
                }
            },
        }
    }
}

/// The first unique field whose final value collides with a live row.
pub open spec fn typed_dup(rows: Seq<RowV>, uniq: Seq<Seq<char>>, data: Seq<(Seq<char>, ValueV)>, now: int) -> Option<ErrV>
    decreases uniq.len(),
{
    if uniq.len() == 0 {
        None
    } else {
        match typed_dup(rows, uniq.drop_last(), data, now) {
            Some(e) => Some(e),
            None => {
                let f = uniq.last();
                match assoc_get(data, f) {
                    Some(x) => if has_dup(rows, f, x, now, None) {
                        Some(ErrV::DuplicateValue(f, value_text(x)))
                    } else {
                        None
                    },
                    None => None,
                }
            },
        }
    }
}

pub type CountersV = Seq<(Seq<char>, Seq<char>, int)>;

/// The counter of a table's autoincrement field (zero before any).
pub open spec fn counter_of(cs: CountersV, t: Seq<char>, f: Seq<char>) -> int
    decreases cs.len(),
{
    if cs.len() == 0 {
        0
    } else if cs.last().0 == t && cs.last().1 == f {
        cs.last().2
    } else {
        counter_of(cs.drop_last(), t, f)
    }
}

pub open spec fn counter_set(cs: CountersV, t: Seq<char>, f: Seq<char>, v: int) -> CountersV {
    cs.filter(other_counter(t, f)).push((t, f, v))
}

/// Whether a counter belongs to another table or field.
pub open spec fn other_counter(t: Seq<char>, f: Seq<char>) -> spec_fn((Seq<char>, Seq<char>, int)) -> bool {
    |c: (Seq<char>, Seq<char>, int)| !(c.0 == t && c.1 == f)
}

pub open spec fn counters_view(cs: Seq<(String, String, i64)>) -> CountersV {
    cs.map_values(|c: (String, String, i64)| (c.0@, c.1@, c.2 as int))
}

/// The integer part of a decimal, truncated toward zero.
pub open spec fn int_part(d: Decimal) -> int {
    if d.mant >= 0 {
        (d.mant as int) / (pow10(d.scale as nat) as int)
    } else {
        -((-(d.mant as int)) / (pow10(d.scale as nat) as int))
    }
}

/// The largest integer part of a numeric value in field `f`, if any.
pub open spec fn max_num(rows: Seq<RowV>, f: Seq<char>) -> Option<int>
    decreases rows.len(),
{
    if rows.len() == 0 {
        None
    } else {
        let m = max_num(rows.drop_last(), f);
        match row_get(rows.last(), f) {
            Some(ValueV::Numeric(d)) => match m {
                Some(x) => Some(if int_part(d) > x { int_part(d) } else { x }),
                None => Some(int_part(d)),
            },
            _ => m,
        }
    }
}

/// The counters raised to the largest value already in the table.
pub open spec fn refresh(cs: CountersV, t: Seq<char>, autos: Seq<Seq<char>>, rows: Seq<RowV>) -> CountersV
    decreases autos.len(),
{
    if autos.len() == 0 {
        cs
    } else {
        let c = refresh(cs, t, autos.drop_last(), rows);
        let f = autos.last();
        let m = match max_num(rows, f) {
            Some(x) => x,
            None => 0,
        };
        let cur = counter_of(c, t, f);
        counter_set(c, t, f, if cur < m { m } else { cur })
    }
}

/// Values for the autoincrement fields a record leaves out: each counter
/// goes up by one and its field takes the new value.
pub open spec fn assign_autos(cs: CountersV, t: Seq<char>, autos: Seq<Seq<char>>, rec: RecordV, data: Seq<(Seq<char>, ValueV)>)
    -> Result<(CountersV, Seq<(Seq<char>, ValueV)>), ErrV>
    decreases autos.len(),
{
    if autos.len() == 0 {
        Ok((cs, data))
    } else {
        match assign_autos(cs, t, autos.drop_last(), rec, data) {
            Err(e) => Err(e),
            Ok((c, d)) => {
                let f = autos.last();
                if assoc_get(rec, f) is Some {
                    Ok((c, d))
                } else {
                    let n = counter_of(c, t, f) + 1;
                    if n > i64::MAX {
                        Err(ErrV::Generic(f))
                    } else {
                        Ok((counter_set(c, t, f, n), data_set(d, f, ValueV::Numeric(Decimal { mant: n as i64, scale: 0 }))))
                    }
                }
            },
        }
    }
}

pub open spec fn clamp64(v: int) -> int {
    if v > i64::MAX { i64::MAX as int } else if v < i64::MIN { i64::MIN as int } else { v }
}

/// When a record's row expires: `now + ttl` where it carries a readable `ttl`.
pub open spec fn expiry(rec: RecordV, now: int) -> Option<int> {
    match assoc_get(rec, ttl_key()) {
        Some(lit) => match int_parse(lit) {
            Some(t) => Some(clamp64(now + t)),
            None => None,
        },
        None => None,
    }
}

/// The largest row id (zero for no rows).
pub open spec fn max_id(rows: Seq<RowV>) -> int
    decreases rows.len(),
{
    if rows.len() == 0 {
        0
    } else {
        let m = max_id(rows.drop_last());
        if rows.last().id > m { rows.last().id } else { m }
    }
}

/// One record inserted into the table at `tpos`.
pub open spec fn insert_one(
    tables: Seq<TableStateV>,
    cfg: Seq<TableV>,
    cs: CountersV,
    table: Seq<char>,
    tpos: int,
    rec: RecordV,
    now: int,
) -> Result<(Seq<TableStateV>, CountersV), ErrV> {
    let rows = tables[tpos].rows;
    let uniq = unique_names(fields_spec(cfg, table));
    let autos = autoincrement_names(fields_spec(cfg, table));
    let id = max_id(rows) + 1;
    if id > i32::MAX {
        Err(ErrV::Generic(table))
    } else {
        match typed_data(cfg, table, rec) {
            Err(e) => Err(e),
            Ok(d0) => match literal_dup(rows, uniq, rec, d0, now) {
                Some(e) => Err(e),
                None => match assign_autos(cs, table, autos, rec, d0) {
                    Err(e) => Err(e),
                    Ok((cs2, d1)) => match typed_dup(rows, uniq, d1, now) {
                        Some(e) => Err(e),
                        None => Ok((
                            tables.update(tpos, TableStateV {
                                name: tables[tpos].name,
                                rows: rows.push(RowV { id, data: d1, expires_at: expiry(rec, now) }),
                            }),
                            cs2,
                        )),
                    },
                },
            },
        }
    }
}

/// The records inserted in order; the first failure stops the batch and
/// the records before it stay.
pub open spec fn insert_all(
    tables: Seq<TableStateV>,
    cfg: Seq<TableV>,
    cs: CountersV,
    table: Seq<char>,
    tpos: int,
    recs: Seq<RecordV>,
    now: int,
) -> (Seq<TableStateV>, CountersV, Result<(), ErrV>)
    decreases recs.len(),
{
    if recs.len() == 0 {
        (tables, cs, Ok(()))
    } else {
        let (t1, c1, r1) = insert_all(tables, cfg, cs, table, tpos, recs.drop_last(), now);
        if r1 is Err {
            (t1, c1, r1)
        } else {
            match insert_one(t1, cfg, c1, table, tpos, recs.last(), now) {
                Ok((t2, c2)) => (t2, c2, Ok(())),
                Err(e) => (t1, c1, Err(e)),
            }
        }
    }
}

/// The tables with the named one present (added, empty, at the end where absent).
pub open spec fn with_table(tables: Seq<TableStateV>, name: Seq<char>) -> Seq<TableStateV> {
    if table_pos(tables, name) < 0 {
        tables.push(TableStateV { name, rows: Seq::empty() })
    } else {
        tables
    }
}


proof fn lemma_filter_wf(d: Seq<(Seq<char>, ValueV)>, k: Seq<char>)
    requires
        data_wf(d),
    ensures
        data_wf(d.filter(other_key(k))),
    decreases d.len(),
{
    reveal(Seq::filter);
    if d.len() > 0 {
        assert(data_wf(d.drop_last())) by {
            assert forall|i: int| 0 <= i < d.drop_last().len() implies value_wf(#[trigger] d.drop_last()[i].1) by {
                assert(d.drop_last()[i] == d[i]);
            }
        }
        lemma_filter_wf(d.drop_last(), k);
        assert(value_wf(d[d.len() - 1].1));
    }
}

pub proof fn lemma_data_set_wf(d: Seq<(Seq<char>, ValueV)>, k: Seq<char>, x: ValueV)
    requires
        data_wf(d),
        value_wf(x),
    ensures
        data_wf(data_set(d, k, x)),
{
    lemma_filter_wf(d, k);
    let fl = d.filter(other_key(k));
    assert forall|i: int| 0 <= i < data_set(d, k, x).len() implies value_wf(#[trigger] data_set(d, k, x)[i].1) by {
        if i < fl.len() {
            assert(data_set(d, k, x)[i] == fl[i]);
        }
    }
}

fn is_ttl(k: &str) -> (r: bool)
    ensures
        r == (k@ == ttl_key()),
{
    let c = crate::text::chars_of(k);
    let r = c.len() == 3 && c[0] == 't' && c[1] == 't' && c[2] == 'l';
    proof {
        if r {
            assert(k@ =~= ttl_key());
        } else if k@ == ttl_key() {
            assert(c@[0] == 't' && c@[1] == 't' && c@[2] == 'l');
        }
    }
    r
}

/// A record's fields read as values of their declared types, as
/// `typed_data` states.
pub fn typed_record(cfg: &DbConfig, table: &str, rec: &Vec<(String, String)>) -> (r: Result<Vec<(String, Value)>, DbError>)
    ensures
        match r {
            Ok(d) => typed_data(cfg@, table@, record_view(*rec)) == Ok::<Seq<(Seq<char>, ValueV)>, ErrV>(data_view(d@)) && data_wf(data_view(d@))
                && crate::row::keys_unique(data_view(d@)),
            Err(e) => typed_data(cfg@, table@, record_view(*rec)) == Err::<Seq<(Seq<char>, ValueV)>, ErrV>(e@),
        },
{
    let ghost rv = record_view(*rec);
    let mut d: Vec<(String, Value)> = Vec::new();
    let mut i: usize = 0;
    assert(rv.subrange(0, 0) =~= Seq::<(Seq<char>, Seq<char>)>::empty());
    assert(data_view(d@) =~= Seq::<(Seq<char>, ValueV)>::empty());
    while i < rec.len()
        invariant
            i <= rec@.len(),
            rv == record_view(*rec),
            rv.len() == rec@.len(),
            typed_data(cfg@, table@, rv.subrange(0, i as int)) == Ok::<Seq<(Seq<char>, ValueV)>, ErrV>(data_view(d@)),
            data_wf(data_view(d@)),
            crate::row::keys_unique(data_view(d@)),
        decreases rec.len() - i,
    {
        assert(rv.subrange(0, i + 1).drop_last() =~= rv.subrange(0, i as int));
        assert(rv.subrange(0, i + 1).last() == (rec@[i as int].0@, rec@[i as int].1@));
        let k = &rec[i].0;
        let v = &rec[i].1;
        if !is_ttl(k.as_str()) {
            let t = cfg.field_type(table, k.as_str());
            match Value::parse_as(t, v.as_str()) {
                Some(x) => {
                    proof {
                        lemma_data_set_wf(data_view(d@), k@, x@);
                        crate::row::lemma_data_set_keys(data_view(d@), k@, x@);
                    }
                    set_field(&mut d, k.clone(), x);
                },
                None => {
                    proof {
                        lemma_typed_data_err(cfg@, table@, rv, i as int + 1);
                    }
                    return Err(DbError::InvalidValue(k.clone(), v.clone()));
                },
            }
        }
        i = i + 1;
    }
    assert(rv.subrange(0, i as int) =~= rv);
    Ok(d)
}

/// Once a literal fails to read, the record fails with it.
proof fn lemma_typed_data_err(cfg: Seq<TableV>, table: Seq<char>, rec: RecordV, k: int)
    requires
        0 <= k <= rec.len(),
        typed_data(cfg, table, rec.subrange(0, k)) is Err,
    ensures
        typed_data(cfg, table, rec) == typed_data(cfg, table, rec.subrange(0, k)),
    decreases rec.len() - k,
{
    if k < rec.len() {
        assert(rec.subrange(0, k + 1).drop_last() =~= rec.subrange(0, k));
        lemma_typed_data_err(cfg, table, rec, k + 1);
    } else {
        assert(rec.subrange(0, k) =~= rec);
    }
}


/// Whether some live row other than `except` holds `x` in field `f`.
pub fn has_dup_exec(rows: &Vec<Row>, f: &str, x: &Value, now: i64, except: Option<i32>) -> (r: bool)
    ensures
        r == has_dup(rows_view(rows@), f@, x@, now as int, match except { Some(e) => Some(e as int), None => None }),
{
    let ghost rv = rows_view(rows@);
    let ghost ex = match except { Some(e) => Some(e as int), None => None::<int> };
    let xt = x.text();
    let mut i: usize = 0;
    while i < rows.len()
        invariant
            i <= rows@.len(),
            rv == rows_view(rows@),
            ex == (match except { Some(e) => Some(e as int), None => None::<int> }),
            xt@ == value_text(x@),
            forall|k: int| #![trigger rv[k]] 0 <= k < i ==> !(live(rv[k], now as int) && ex != Some(rv[k].id)
                && crate::select::text_of(row_get(rv[k], f@)) == Some(value_text(x@))),
        decreases rows.len() - i,
    {
        let r = &rows[i];
        assert(rv[i as int] == r@);
        let other = match except {
            Some(e) => r.id != e,
            None => true,
        };
        if r.is_live(now) && other {
            match r.get(f) {
                Some(y) => {
                    let yt = y.text();
                    if str_eq(yt.as_str(), xt.as_str()) {
                        assert(live(rv[i as int], now as int) && ex != Some(rv[i as int].id)
                            && crate::select::text_of(row_get(rv[i as int], f@)) == Some(value_text(x@)));
                        return true;
                    }
                },
                None => {},
            }
        }
        i = i + 1;
    }
    false
}

/// The first unique field whose supplied literal collides, as `literal_dup` states.
fn literal_dup_exec(rows: &Vec<Row>, uniq: &Vec<String>, rec: &Vec<(String, String)>, d: &Vec<(String, Value)>, now: i64) -> (r: Option<DbError>)
    ensures
        match r {
            Some(e) => literal_dup(rows_view(rows@), crate::query::strings_view(uniq@), record_view(*rec), data_view(d@), now as int) == Some(e@),
            None => literal_dup(rows_view(rows@), crate::query::strings_view(uniq@), record_view(*rec), data_view(d@), now as int) is None,
        },
{
    let ghost uv = crate::query::strings_view(uniq@);
    let mut i: usize = 0;
    assert(uv.subrange(0, 0) =~= Seq::<Seq<char>>::empty());
    while i < uniq.len()
        invariant
            i <= uniq@.len(),
            uv == crate::query::strings_view(uniq@),
            literal_dup(rows_view(rows@), uv.subrange(0, i as int), record_view(*rec), data_view(d@), now as int) is None,
        decreases uniq.len() - i,
    {
        assert(uv.subrange(0, i + 1).drop_last() =~= uv.subrange(0, i as int));
        assert(uv.subrange(0, i + 1).last() == uniq@[i as int]@);
        let f = uniq[i].as_str();
        let lit = crate::query::assoc_find(rec, f);
        let x = crate::row::data_get(d, f);
        match (lit, x) {
            (Some(l), Some(v)) => {
                if has_dup_exec(rows, f, v, now, None) {
                    proof {
                        lemma_literal_dup_some(rows_view(rows@), uv, record_view(*rec), data_view(d@), now as int, i as int + 1);
                    }
                    return Some(DbError::DuplicateValue(uniq[i].clone(), l.clone()));
                }
            },
            _ => {},
        }
        i = i + 1;
    }
    assert(uv.subrange(0, i as int) =~= uv);
    None
}

proof fn lemma_literal_dup_some(rows: Seq<RowV>, uniq: Seq<Seq<char>>, rec: RecordV, d: Seq<(Seq<char>, ValueV)>, now: int, k: int)
    requires
        0 <= k <= uniq.len(),
        literal_dup(rows, uniq.subrange(0, k), rec, d, now) is Some,
    ensures
        literal_dup(rows, uniq, rec, d, now) == literal_dup(rows, uniq.subrange(0, k), rec, d, now),
    decreases uniq.len() - k,
{
    if k < uniq.len() {
        assert(uniq.subrange(0, k + 1).drop_last() =~= uniq.subrange(0, k));
        lemma_literal_dup_some(rows, uniq, rec, d, now, k + 1);
    } else {
        assert(uniq.subrange(0, k) =~= uniq);
    }
}

proof fn lemma_typed_dup_some(rows: Seq<RowV>, uniq: Seq<Seq<char>>, d: Seq<(Seq<char>, ValueV)>, now: int, k: int)
    requires
        0 <= k <= uniq.len(),
        typed_dup(rows, uniq.subrange(0, k), d, now) is Some,
    ensures
        typed_dup(rows, uniq, d, now) == typed_dup(rows, uniq.subrange(0, k), d, now),
    decreases uniq.len() - k,
{
    if k < uniq.len() {
        assert(uniq.subrange(0, k + 1).drop_last() =~= uniq.subrange(0, k));
        lemma_typed_dup_some(rows, uniq, d, now, k + 1);
    } else {
        assert(uniq.subrange(0, k) =~= uniq);
    }
}

/// The first unique field whose final value collides, as `typed_dup` states.
fn typed_dup_exec(rows: &Vec<Row>, uniq: &Vec<String>, d: &Vec<(String, Value)>, now: i64) -> (r: Option<DbError>)
    ensures
        match r {
            Some(e) => typed_dup(rows_view(rows@), crate::query::strings_view(uniq@), data_view(d@), now as int) == Some(e@),
            None => typed_dup(rows_view(rows@), crate::query::strings_view(uniq@), data_view(d@), now as int) is None,
        },
{
    let ghost uv = crate::query::strings_view(uniq@);
    let mut i: usize = 0;
    assert(uv.subrange(0, 0) =~= Seq::<Seq<char>>::empty());
    while i < uniq.len()
        invariant
            i <= uniq@.len(),
            uv == crate::query::strings_view(uniq@),
            typed_dup(rows_view(rows@), uv.subrange(0, i as int), data_view(d@), now as int) is None,
        decreases uniq.len() - i,
    {
        assert(uv.subrange(0, i + 1).drop_last() =~= uv.subrange(0, i as int));
        assert(uv.subrange(0, i + 1).last() == uniq@[i as int]@);
        let f = uniq[i].as_str();
        match crate::row::data_get(d, f) {
            Some(v) => {
                if has_dup_exec(rows, f, v, now, None) {
                    proof {
                        lemma_typed_dup_some(rows_view(rows@), uv, data_view(d@), now as int, i as int + 1);
                    }
                    return Some(DbError::DuplicateValue(uniq[i].clone(), v.text()));
                }
            },
            None => {},
        }
        i = i + 1;
    }
    assert(uv.subrange(0, i as int) =~= uv);
    None
}


/// The counter of a table's autoincrement field, as `counter_of` states.
fn counter_of_exec(cs: &Vec<(String, String, i64)>, t: &str, f: &str) -> (r: i64)
    ensures
        r as int == counter_of(counters_view(cs@), t@, f@),
{
    let ghost cv = counters_view(cs@);
    let mut r: i64 = 0;
    let mut i: usize = 0;
    assert(cv.subrange(0, 0) =~= Seq::<(Seq<char>, Seq<char>, int)>::empty());
    while i < cs.len()
        invariant
            i <= cs@.len(),
            cv == counters_view(cs@),
            r as int == counter_of(cv.subrange(0, i as int), t@, f@),
        decreases cs.len() - i,
    {
        assert(cv.subrange(0, i + 1).drop_last() =~= cv.subrange(0, i as int));
        assert(cv[i as int] == (cs@[i as int].0@, cs@[i as int].1@, cs@[i as int].2 as int));
        if str_eq(cs[i].0.as_str(), t) && str_eq(cs[i].1.as_str(), f) {
            r = cs[i].2;
        }
        i = i + 1;
    }
    assert(cv.subrange(0, i as int) =~= cv);
    r
}

/// Sets a counter, as `counter_set` states.
fn counter_set_exec(cs: &mut Vec<(String, String, i64)>, t: &String, f: &String, v: i64)
    ensures
        counters_view(final(cs)@) == counter_set(counters_view(old(cs)@), t@, f@, v as int),
{
    let ghost src = counters_view(old(cs)@);
    let mut old_items: Vec<(String, String, i64)> = Vec::new();
    std::mem::swap(cs, &mut old_items);
    let mut i: usize = 0;
    proof {
        reveal(Seq::filter);
    }
    assert(src.subrange(0, 0).filter(other_counter(t@, f@)) =~= Seq::<(Seq<char>, Seq<char>, int)>::empty());
    while i < old_items.len()
        invariant
            i <= old_items@.len(),
            src == counters_view(old_items@),
            counters_view(cs@) == src.subrange(0, i as int).filter(other_counter(t@, f@)),
        decreases old_items.len() - i,
    {
        let ghost before = cs@;
        proof {
            reveal(Seq::filter);
        }
        assert(src.subrange(0, i + 1).drop_last() =~= src.subrange(0, i as int));
        assert(src[i as int] == (old_items@[i as int].0@, old_items@[i as int].1@, old_items@[i as int].2 as int));
        let same = str_eq(old_items[i].0.as_str(), t.as_str()) && str_eq(old_items[i].1.as_str(), f.as_str());
        if !same {
            let e = (old_items[i].0.clone(), old_items[i].1.clone(), old_items[i].2);
            cs.push(e);
            assert(cs@ == before.push(e));
            assert(counters_view(cs@) =~= counters_view(before).push((e.0@, e.1@, e.2 as int)));
        }
        i = i + 1;
    }
    assert(src.subrange(0, i as int) =~= src);
    let ghost before = cs@;
    let e = (t.clone(), f.clone(), v);
    cs.push(e);
    assert(cs@ == before.push(e));
    assert(counters_view(cs@) =~= counters_view(before).push((t@, f@, v as int)));
}

/// A copy of the counters.
pub(crate) fn copy_counters(cs: &Vec<(String, String, i64)>) -> (r: Vec<(String, String, i64)>)
    ensures
        counters_view(r@) == counters_view(cs@),
{
    let mut r: Vec<(String, String, i64)> = Vec::new();
    let mut i: usize = 0;
    while i < cs.len()
        invariant
            i <= cs@.len(),
            counters_view(r@) == counters_view(cs@.subrange(0, i as int)),
        decreases cs.len() - i,
    {
        let ghost before = r@;
        let e = (cs[i].0.clone(), cs[i].1.clone(), cs[i].2);
        r.push(e);
        assert(r@ == before.push(e));
        assert(cs@.subrange(0, i + 1) == cs@.subrange(0, i as int).push(cs@[i as int]));
        assert(counters_view(r@) =~= counters_view(before).push((e.0@, e.1@, e.2 as int)));
        assert(counters_view(r@) =~= counters_view(cs@.subrange(0, i + 1)));
        i = i + 1;
    }
    assert(cs@.subrange(0, i as int) =~= cs@);
    r
}

/// The integer part of a decimal, as `int_part` states.
fn int_part_exec(d: Decimal) -> (r: i64)
    requires
        d.wf(),
    ensures
        r as int == int_part(d),
{
    let p = crate::value::pow10_exec(d.scale);
    proof {
        crate::value::lemma_pow10_pos(d.scale as nat);
    }
    if d.mant >= 0 {
        let q = (d.mant as u64) / p;
        assert(q <= d.mant as u64);
        q as i64
    } else {
        let m: u128 = (-(d.mant as i128)) as u128;
        let q: u128 = m / (p as u128);
        assert(q <= m);
        -(q as i128) as i64
    }
}

/// The largest integer part of a numeric value in field `f`, as `max_num` states.
fn max_num_exec(rows: &Vec<Row>, f: &str) -> (r: Option<i64>)
    requires
        rows_wf(rows_view(rows@)),
    ensures
        match r {
            Some(v) => max_num(rows_view(rows@), f@) == Some(v as int),
            None => max_num(rows_view(rows@), f@) is None,
        },
{
    let ghost rv = rows_view(rows@);
    let mut m: Option<i64> = None;
    let mut i: usize = 0;
    assert(rv.subrange(0, 0) =~= Seq::<RowV>::empty());
    while i < rows.len()
        invariant
            i <= rows@.len(),
            rv == rows_view(rows@),
            rows_wf(rv),
            match m {
                Some(v) => max_num(rv.subrange(0, i as int), f@) == Some(v as int),
                None => max_num(rv.subrange(0, i as int), f@) is None,
            },
        decreases rows.len() - i,
    {
        assert(rv.subrange(0, i + 1).drop_last() =~= rv.subrange(0, i as int));
        assert(rv.subrange(0, i + 1).last() == rows@[i as int]@);
        assert(data_wf(rv[i as int].data));
        proof {
            crate::filter::lemma_get_wf(rv[i as int], f@);
        }
        match rows[i].get(f) {
            Some(Value::Numeric(d)) => {
                let p = int_part_exec(*d);
                m = match m {
                    Some(x) => Some(if p > x { p } else { x }),
                    None => Some(p),
                };
            },
            _ => {},
        }
        i = i + 1;
    }
    assert(rv.subrange(0, i as int) =~= rv);
    m
}

/// The counters raised to the largest values already in the table, as
/// `refresh` states.
pub(crate) fn refresh_exec(cs: &mut Vec<(String, String, i64)>, t: &String, autos: &Vec<String>, rows: &Vec<Row>)
    requires
        rows_wf(rows_view(rows@)),
    ensures
        counters_view(final(cs)@) == refresh(counters_view(old(cs)@), t@, crate::query::strings_view(autos@), rows_view(rows@)),
{
    let ghost av = crate::query::strings_view(autos@);
    let ghost c0 = counters_view(cs@);
    let mut i: usize = 0;
    assert(av.subrange(0, 0) =~= Seq::<Seq<char>>::empty());
    while i < autos.len()
        invariant
            i <= autos@.len(),
            av == crate::query::strings_view(autos@),
            rows_wf(rows_view(rows@)),
            counters_view(cs@) == refresh(c0, t@, av.subrange(0, i as int), rows_view(rows@)),
        decreases autos.len() - i,
    {
        assert(av.subrange(0, i + 1).drop_last() =~= av.subrange(0, i as int));
        assert(av.subrange(0, i + 1).last() == autos@[i as int]@);
        let f = &autos[i];
        let m: i64 = match max_num_exec(rows, f.as_str()) {
            Some(x) => x,
            None => 0,
        };
        let cur = counter_of_exec(cs, t.as_str(), f.as_str());
        counter_set_exec(cs, t, f, if cur < m { m } else { cur });
        i = i + 1;
    }
    assert(av.subrange(0, i as int) =~= av);
}

/// When a record's row expires, as `expiry` states.
fn expiry_exec(rec: &Vec<(String, String)>, now: i64) -> (r: Option<i64>)
    ensures
        match r {
            Some(v) => expiry(record_view(*rec), now as int) == Some(v as int),
            None => expiry(record_view(*rec), now as int) is None,
        },
{
    let ghost key = ttl_key();
    let mut k: Vec<char> = Vec::new();
    k.push('t');
    k.push('t');
    k.push('l');
    assert(k@ =~= ttl_key());
    let ks = crate::text::string_of(&k);
    match crate::query::assoc_find(rec, ks.as_str()) {
        None => None,
        Some(lit) => match parse_int(lit.as_str()) {
            None => None,
            Some(t) => {
                let s = (now as i128) + (t as i128);
                let c: i64 = if s > 9223372036854775807i128 {
                    9223372036854775807i64
                } else if s < -9223372036854775808i128 {
                    -9223372036854775808i64
                } else {
                    s as i64
                };
                Some(c)
            },
        },
    }
}

/// The largest row id (zero for no rows), as `max_id` states.
fn max_id_exec(rows: &Vec<Row>) -> (r: i64)
    ensures
        r as int == max_id(rows_view(rows@)),
        r <= i32::MAX,
{
    let ghost rv = rows_view(rows@);
    let mut m: i64 = 0;
    let mut i: usize = 0;
    assert(rv.subrange(0, 0) =~= Seq::<RowV>::empty());
    while i < rows.len()
        invariant
            i <= rows@.len(),
            rv == rows_view(rows@),
            m as int == max_id(rv.subrange(0, i as int)),
            m <= i32::MAX,
        decreases rows.len() - i,
    {
        assert(rv.subrange(0, i + 1).drop_last() =~= rv.subrange(0, i as int));
        assert(rv.subrange(0, i + 1).last() == rows@[i as int]@);
        let id = rows[i].id as i64;
        if id > m {
            m = id;
        }
        i = i + 1;
    }
    assert(rv.subrange(0, i as int) =~= rv);
    m
}


proof fn lemma_assign_autos_err(cs: CountersV, t: Seq<char>, autos: Seq<Seq<char>>, rec: RecordV, d: Seq<(Seq<char>, ValueV)>, k: int)
    requires
        0 <= k <= autos.len(),
        assign_autos(cs, t, autos.subrange(0, k), rec, d) is Err,
    ensures
        assign_autos(cs, t, autos, rec, d) == assign_autos(cs, t, autos.subrange(0, k), rec, d),
    decreases autos.len() - k,
{
    if k < autos.len() {
        assert(autos.subrange(0, k + 1).drop_last() =~= autos.subrange(0, k));
        lemma_assign_autos_err(cs, t, autos, rec, d, k + 1);
    } else {
        assert(autos.subrange(0, k) =~= autos);
    }
}

/// Values for the autoincrement fields a record leaves out, as
/// `assign_autos` states (on failure the counters and fields are not to be used).
fn assign_autos_exec(
    cs: &mut Vec<(String, String, i64)>,
    t: &String,
    autos: &Vec<String>,
    rec: &Vec<(String, String)>,
    d: &mut Vec<(String, Value)>,
) -> (r: Result<(), DbError>)
    requires
        data_wf(data_view(old(d)@)),
        crate::row::keys_unique(data_view(old(d)@)),
    ensures
        crate::row::keys_unique(data_view(final(d)@)),
        match r {
            Ok(()) => assign_autos(counters_view(old(cs)@), t@, crate::query::strings_view(autos@), record_view(*rec), data_view(old(d)@))
                == Ok::<(CountersV, Seq<(Seq<char>, ValueV)>), ErrV>((counters_view(final(cs)@), data_view(final(d)@))),
            Err(e) => assign_autos(counters_view(old(cs)@), t@, crate::query::strings_view(autos@), record_view(*rec), data_view(old(d)@))
                == Err::<(CountersV, Seq<(Seq<char>, ValueV)>), ErrV>(e@),
        },
        data_wf(data_view(final(d)@)),
{
    let ghost av = crate::query::strings_view(autos@);
    let ghost c0 = counters_view(cs@);
    let ghost d0 = data_view(d@);
    let mut i: usize = 0;
    assert(av.subrange(0, 0) =~= Seq::<Seq<char>>::empty());
    while i < autos.len()
        invariant
            i <= autos@.len(),
            av == crate::query::strings_view(autos@),
            c0 == counters_view(old(cs)@),
            d0 == data_view(old(d)@),
            data_wf(data_view(d@)),
            crate::row::keys_unique(data_view(d@)),
            assign_autos(c0, t@, av.subrange(0, i as int), record_view(*rec), d0)
                == Ok::<(CountersV, Seq<(Seq<char>, ValueV)>), ErrV>((counters_view(cs@), data_view(d@))),
        decreases autos.len() - i,
    {
        assert(av.subrange(0, i + 1).drop_last() =~= av.subrange(0, i as int));
        assert(av.subrange(0, i + 1).last() == autos@[i as int]@);
        let f = &autos[i];
        if crate::query::assoc_find(rec, f.as_str()).is_none() {
            let cur = counter_of_exec(cs, t.as_str(), f.as_str());
            if cur == 9223372036854775807i64 {
                proof {
                    assert(assoc_get(record_view(*rec), f@) is None);
                    assert(assign_autos(c0, t@, av.subrange(0, i + 1), record_view(*rec), d0)
                        == Err::<(CountersV, Seq<(Seq<char>, ValueV)>), ErrV>(ErrV::Generic(f@)));
                    lemma_assign_autos_err(c0, t@, av, record_view(*rec), d0, i as int + 1);
                    assert(assign_autos(c0, t@, av, record_view(*rec), d0) == Err::<(CountersV, Seq<(Seq<char>, ValueV)>), ErrV>(ErrV::Generic(f@)));
                    assert(c0 == counters_view(old(cs)@));
                    assert(d0 == data_view(old(d)@));
                }
                let e = DbError::Generic(f.clone());
                assert(e@ == ErrV::Generic(f@));
                return Err(e);
            }
            let n = cur + 1;
            counter_set_exec(cs, t, f, n);
            let x = Value::Numeric(Decimal { mant: n, scale: 0 });
            proof {
                lemma_data_set_wf(data_view(d@), f@, x@);
                crate::row::lemma_data_set_keys(data_view(d@), f@, x@);
            }
            set_field(d, f.clone(), x);
        }
        i = i + 1;
    }
    assert(av.subrange(0, i as int) =~= av);
    Ok(())
}

impl Database {
    /// The position of the named table, which is added (empty, at the end)
    /// where absent.
    pub fn ensure_table(&mut self, name: &String) -> (r: usize)
        requires
            tables_wf(old(self)@.tables),
        ensures
            tables_wf(final(self)@.tables),
            final(self)@.indexes == old(self)@.indexes,
            old(self).wf() ==> final(self).wf(),
            final(self)@.tables == with_table(old(self)@.tables, name@),
            final(self)@.config == old(self)@.config,
            final(self)@.counters == old(self)@.counters,
            r < final(self)@.tables.len(),
            r as int == table_pos(final(self)@.tables, name@),
    {
        match self.find_table(name.as_str()) {
            Some(i) => i,
            None => {
                let ghost before = self@.tables;
                let t = Table { name: name.clone(), rows: Vec::new() };
                self.tables.push(t);
                assert(t@.rows =~= Seq::<RowV>::empty());
                assert(self@.tables =~= before.push(TableStateV { name: name@, rows: Seq::empty() }));
                let ghost names = self@.tables.map_values(|t: TableStateV| t.name);
                let ghost bn = before.map_values(|t: TableStateV| t.name);
                assert(table_pos(before, name@) == -1);
                assert forall|k: int| 0 <= k < before.len() implies names[k] != name@ by {
                    assert(names[k] == before[k].name);
                    if names[k] == name@ {
                        assert(bn[k] == name@);
                        crate::text::lemma_seq_first_index_hit(bn, name@, k);
                    }
                }
                proof {
                    crate::text::lemma_seq_first_index(names, name@, before.len() as int);
                    assert forall|x: Seq<char>| #[trigger] crate::index::rows_or_empty(self@.tables, x) == crate::index::rows_or_empty(before, x) by {
                        crate::index::lemma_rows_after_new_table(before, name@, x);
                    }
                    crate::index::lemma_index_set_same_rows(self@.config, self@.tables, before);
                }
                assert(tables_wf(self@.tables)) by {
                    let nt = self@.tables;
                    assert forall|k: int| 0 <= k < nt.len() implies rows_wf(#[trigger] nt[k].rows) && ids_unique(nt[k].rows)
                        && crate::db::rows_keys_unique(nt[k].rows) by {
                        if k < before.len() {
                            assert(nt[k] == before[k]);
                        }
                    }
                    assert forall|a: int, b: int| 0 <= a < b < nt.len() implies #[trigger] nt[a].name != #[trigger] nt[b].name by {
                        assert(nt[a] == before[a]);
                        if b < before.len() {
                            assert(nt[b] == before[b]);
                        } else {
                            assert(names[a] == nt[a].name);
                        }
                    }
                }
                self.tables.len() - 1
            },
        }
    }
}


/// What an insert does: the table is created where absent, its counters
/// are raised to what it holds, and the records go in one by one.
pub open spec fn insert_spec(tables: Seq<TableStateV>, cfg: Seq<TableV>, cs: CountersV, q: QueryV, now: int)
    -> (Seq<TableStateV>, CountersV, Result<(), ErrV>)
{
    let t1 = with_table(tables, q.table);
    let tpos = table_pos(t1, q.table);
    let autos = autoincrement_names(fields_spec(cfg, q.table));
    let c1 = refresh(cs, q.table, autos, t1[tpos].rows);
    insert_all(t1, cfg, c1, q.table, tpos, q.values, now)
}

proof fn lemma_insert_all_err(
    tables: Seq<TableStateV>,
    cfg: Seq<TableV>,
    cs: CountersV,
    table: Seq<char>,
    tpos: int,
    recs: Seq<RecordV>,
    now: int,
    k: int,
)
    requires
        0 <= k <= recs.len(),
        insert_all(tables, cfg, cs, table, tpos, recs.subrange(0, k), now).2 is Err,
    ensures
        insert_all(tables, cfg, cs, table, tpos, recs, now) == insert_all(tables, cfg, cs, table, tpos, recs.subrange(0, k), now),
    decreases recs.len() - k,
{
    if k < recs.len() {
        assert(recs.subrange(0, k + 1).drop_last() =~= recs.subrange(0, k));
        lemma_insert_all_err(tables, cfg, cs, table, tpos, recs, now, k + 1);
    } else {
        assert(recs.subrange(0, k) =~= recs);
    }
}

impl Database {
    /// One record inserted into the table at `tpos`, as `insert_one` states;
    /// nothing changes on failure.
    #[verifier::rlimit(60)]
    pub(crate) fn insert_one_exec(
        &mut self,
        tpos: usize,
        table: &String,
        uniq: &Vec<String>,
        autos: &Vec<String>,
        rec: &Vec<(String, String)>,
        now: i64,
    ) -> (r: Result<(), DbError>)
        requires
            old(self).wf(),
            tpos < old(self)@.tables.len(),
            table_pos(old(self)@.tables, table@) == tpos as int,
            crate::query::strings_view(uniq@) == unique_names(fields_spec(old(self)@.config, table@)),
            crate::query::strings_view(autos@) == autoincrement_names(fields_spec(old(self)@.config, table@)),
        ensures
            final(self).wf(),
            final(self)@.config == old(self)@.config,
            final(self)@.tables.len() == old(self)@.tables.len(),
            table_pos(final(self)@.tables, table@) == tpos as int,
            match r {
                Ok(()) => insert_one(old(self)@.tables, old(self)@.config, old(self)@.counters, table@, tpos as int, record_view(*rec), now as int)
                    == Ok::<(Seq<TableStateV>, CountersV), ErrV>((final(self)@.tables, final(self)@.counters)),
                Err(e) => insert_one(old(self)@.tables, old(self)@.config, old(self)@.counters, table@, tpos as int, record_view(*rec), now as int)
                    == Err::<(Seq<TableStateV>, CountersV), ErrV>(e@) && final(self)@ == old(self)@,
            },
    {
        let ghost tv = self@.tables;
        assert(tv[tpos as int] == self.tables@[tpos as int]@);
        assert(rows_wf(tv[tpos as int].rows));
        let m = max_id_exec(&self.tables[tpos].rows);
        if m == 2147483647i64 {
            return Err(DbError::Generic(table.clone()));
        }
        let d0 = match typed_record(&self.config, table.as_str(), rec) {
            Ok(d) => d,
            Err(e) => {
                return Err(e);
            },
        };
        match literal_dup_exec(&self.tables[tpos].rows, uniq, rec, &d0, now) {
            Some(e) => {
                return Err(e);
            },
            None => {},
        }
        let mut cs = copy_counters(&self.counters);
        let mut d = copy_data(&d0);
        match assign_autos_exec(&mut cs, table, autos, rec, &mut d) {
            Err(e) => {
                return Err(e);
            },
            Ok(()) => {},
        }
        match typed_dup_exec(&self.tables[tpos].rows, uniq, &d, now) {
            Some(e) => {
                return Err(e);
            },
            None => {},
        }
        let exp = expiry_exec(rec, now);
        let row = Row { id: (m + 1) as i32, data: d, expires_at: exp };
        let ghost rv = row@;
        assert(rv == (RowV { id: max_id(tv[tpos as int].rows) + 1, data: rv.data, expires_at: expiry(record_view(*rec), now as int) }));
        let ghost old_rows = self.tables@[tpos as int].rows@;
        proof {
            crate::index::lemma_first_index_props(tv.map_values(|t: TableStateV| t.name), table@);
            crate::index::lemma_index_set_push(self@.config, tv, tpos as int, rv);
        }
        self.index_row(table, &row);
        self.tables[tpos].rows.push(row);
        self.counters = cs;
        assert(rows_view(self.tables@[tpos as int].rows@) =~= rows_view(old_rows).push(rv));
        assert(self@.tables =~= tv.update(tpos as int, TableStateV { name: tv[tpos as int].name, rows: tv[tpos as int].rows.push(rv) }));
        assert(self@.tables.map_values(|t: TableStateV| t.name) =~= tv.map_values(|t: TableStateV| t.name));
        proof {
            lemma_max_id_ge(tv[tpos as int].rows);
        }
        assert(tables_wf(self@.tables)) by {
            assert forall|k: int| 0 <= k < self@.tables.len() implies rows_wf(#[trigger] self@.tables[k].rows) && ids_unique(self@.tables[k].rows) by {
                if k == tpos {
                    assert forall|j: int| 0 <= j < self@.tables[k].rows.len() implies data_wf(#[trigger] self@.tables[k].rows[j].data) by {
                        if j < tv[k].rows.len() {
                            assert(self@.tables[k].rows[j] == tv[k].rows[j]);
                        }
                    }
                    let nr = self@.tables[k].rows;
                    assert forall|a: int, b: int| 0 <= a < b < nr.len() implies #[trigger] nr[a].id != #[trigger] nr[b].id by {
                        assert(nr[a] == tv[k].rows[a]);
                        if b < tv[k].rows.len() {
                            assert(nr[b] == tv[k].rows[b]);
                        }
                    }
                } else {
                    assert(self@.tables[k] == tv[k]);
                }
            }
        }
        Ok(())
    }

    /// Runs an insert query at time `now`, as `insert_spec` states: records
    /// before a failing one stay inserted.
    pub fn execute_insert(&mut self, q: &Query, now: i64) -> (r: Result<(), DbError>)
        requires
            old(self).wf(),
        ensures
            final(self).wf(),
            final(self)@.config == old(self)@.config,
            (final(self)@.tables, final(self)@.counters, match r { Ok(()) => Ok::<(), ErrV>(()), Err(e) => Err::<(), ErrV>(e@) })
                == insert_spec(old(self)@.tables, old(self)@.config, old(self)@.counters, q@, now as int),
    {
        let tpos = self.ensure_table(&q.table);
        let uniq = self.config.unique_fields(q.table.as_str());
        let autos = self.config.autoincrement_fields(q.table.as_str());
        let ghost tv = self@.tables;
        assert(tv[tpos as int] == self.tables@[tpos as int]@);
        assert(rows_wf(tv[tpos as int].rows));
        let ghost t1 = self@.tables;
        let ghost c1 = refresh(old(self)@.counters, q@.table, crate::query::strings_view(autos@), t1[tpos as int].rows);
        {
            let mut cs = copy_counters(&self.counters);
            refresh_exec(&mut cs, &q.table, &autos, &self.tables[tpos].rows);
            self.counters = cs;
        }
        assert(self@.counters == c1);
        let ghost recs = q@.values;
        let mut i: usize = 0;
        assert(recs.subrange(0, 0) =~= Seq::<RecordV>::empty());
        while i < q.values.len()
            invariant
                i <= q.values@.len(),
                recs == q@.values,
                recs.len() == q.values@.len(),
                self.wf(),
                self@.config == old(self)@.config,
                tpos < self@.tables.len(),
                tpos as int == table_pos(t1, q@.table),
                tpos as int == table_pos(self@.tables, q@.table),
                t1 == with_table(old(self)@.tables, q@.table),
                c1 == refresh(old(self)@.counters, q@.table, autoincrement_names(fields_spec(old(self)@.config, q@.table)), t1[tpos as int].rows),
                crate::query::strings_view(uniq@) == unique_names(fields_spec(self@.config, q@.table)),
                crate::query::strings_view(autos@) == autoincrement_names(fields_spec(self@.config, q@.table)),
                insert_all(t1, self@.config, c1, q@.table, tpos as int, recs.subrange(0, i as int), now as int)
                    == (self@.tables, self@.counters, Ok::<(), ErrV>(())),
            decreases q.values.len() - i,
        {
            assert(recs.subrange(0, i + 1).drop_last() =~= recs.subrange(0, i as int));
            assert(recs.subrange(0, i + 1).last() == record_view(q.values@[i as int]));
            let ghost before = self@;
            match self.insert_one_exec(tpos, &q.table, &uniq, &autos, &q.values[i], now) {
                Ok(()) => {},
                Err(e) => {
                    proof {
                        assert(self@ == before);
                        assert(insert_all(t1, self@.config, c1, q@.table, tpos as int, recs.subrange(0, i + 1), now as int)
                            == (before.tables, before.counters, Err::<(), ErrV>(e@)));
                        lemma_insert_all_err(t1, self@.config, c1, q@.table, tpos as int, recs, now as int, i as int + 1);
                    }
                    return Err(e);
                },
            }
            i = i + 1;
        }
        assert(recs.subrange(0, i as int) =~= recs);
        Ok(())
    }
}


proof fn lemma_typed_dup_none(rows: Seq<RowV>, uniq: Seq<Seq<char>>, d: Seq<(Seq<char>, ValueV)>, now: int, k: int)
    requires
        typed_dup(rows, uniq, d, now) is None,
        0 <= k < uniq.len(),
    ensures
        assoc_get(d, uniq[k]) matches Some(x) ==> !has_dup(rows, uniq[k], x, now, None),
    decreases uniq.len(),
{
    if k < uniq.len() - 1 {
        assert(uniq.drop_last()[k] == uniq[k]);
        lemma_typed_dup_none(rows, uniq.drop_last(), d, now, k);
    }
}

/// A record that goes in holds, in each unique field, a value whose
/// canonical text no live row of the table held before: unique fields stay
/// unique among live rows, compared as text.
pub proof fn lemma_insert_keeps_unique(
    tables: Seq<TableStateV>,
    cfg: Seq<TableV>,
    cs: CountersV,
    table: Seq<char>,
    tpos: int,
    rec: RecordV,
    now: int,
    f: Seq<char>,
)
    requires
        0 <= tpos < tables.len(),
        insert_one(tables, cfg, cs, table, tpos, rec, now) is Ok,
        unique_names(fields_spec(cfg, table)).contains(f),
    ensures
        ({
            let t2 = match insert_one(tables, cfg, cs, table, tpos, rec, now) {
                Ok((t, _)) => t,
                Err(_) => tables,
            };
            let added = t2[tpos].rows.last();
            &&& t2[tpos].rows == tables[tpos].rows.push(added)
            &&& (row_get(added, f) matches Some(x) ==> !has_dup(tables[tpos].rows, f, x, now, None))
        }),
{
    let rows = tables[tpos].rows;
    let uniq = unique_names(fields_spec(cfg, table));
    let autos = autoincrement_names(fields_spec(cfg, table));
    let k = choose|k: int| 0 <= k < uniq.len() && uniq[k] == f;
    match typed_data(cfg, table, rec) {
        Ok(d0) => match assign_autos(cs, table, autos, rec, d0) {
            Ok((cs2, d1)) => lemma_typed_dup_none(rows, uniq, d1, now, k),
            Err(_) => {},
        },
        Err(_) => {},
    }
}

/// An autoincrement value handed out is one more than the counter, which
/// rises with it: successive values strictly increase.
pub proof fn lemma_autoincrement_increases(cs: CountersV, t: Seq<char>, f: Seq<char>)
    ensures
        counter_of(counter_set(cs, t, f, counter_of(cs, t, f) + 1), t, f) == counter_of(cs, t, f) + 1,
        counter_of(cs, t, f) + 1 > counter_of(cs, t, f),
{
}


/// Every row id is at most the largest.
pub proof fn lemma_max_id_ge(rows: Seq<RowV>)
    ensures
        forall|i: int| 0 <= i < rows.len() ==> #[trigger] rows[i].id <= max_id(rows),
    decreases rows.len(),
{
    if rows.len() > 0 {
        lemma_max_id_ge(rows.drop_last());
        assert forall|i: int| 0 <= i < rows.len() implies #[trigger] rows[i].id <= max_id(rows) by {
            if i < rows.len() - 1 {
                assert(rows[i] == rows.drop_last()[i]);
            }
        }
    }
}

} // verus!
