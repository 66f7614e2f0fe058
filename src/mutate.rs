use vstd::prelude::*;

use crate::db::{Database, DbError, ErrV, TableStateV, ids_unique, rows_view, rows_wf, table_pos, tables_wf};
use crate::filter::{check_where, where_holds};
use crate::insert::{has_dup, has_dup_exec, lemma_data_set_wf};
use crate::query::{CondV, Condition, Query, QueryV, group_view, record_view, strings_view};
use crate::row::{Row, RowV, data_set, data_view, data_wf, live, set_field, copy_data};
use crate::schema::{TableV, fields_spec, type_spec, unique_names, DbConfig};
use crate::select::{RecordV, live_rows};
use crate::text::str_eq;
use crate::value::{Value, ValueV, parse_spec};

verus! {

/// The rows a delete keeps: those that are not live rows meeting the where clause.
pub open spec fn delete_keep(cfg: Seq<TableV>, table: Seq<char>, rows: Seq<RowV>, w: Seq<Seq<CondV>>, now: int) -> Seq<RowV>
    decreases rows.len(),
{
    if rows.len() == 0 {
        Seq::empty()
    } else {
        let rest = delete_keep(cfg, table, rows.drop_last(), w, now);
        let r = rows.last();
        if live(r, now) && where_holds(cfg, table, r, w) { rest } else { rest.push(r) }
    }
}

/// What a delete does to the tables.
pub open spec fn delete_spec(tables: Seq<TableStateV>, cfg: Seq<TableV>, q: QueryV, now: int) -> Result<Seq<TableStateV>, ErrV> {
    let i = table_pos(tables, q.table);
    if i < 0 {
        Err(ErrV::TableNotFound(q.table))
    } else {
        Ok(tables.update(i, TableStateV {
            name: tables[i].name,
            rows: delete_keep(cfg, q.table, tables[i].rows, q.where_clauses, now),
        }))
    }
}

/// One row with the set-map laid over it: each field read as its declared
/// type, and a unique field may not take a value another live row holds.
pub open spec fn update_row(cfg: Seq<TableV>, table: Seq<char>, rows: Seq<RowV>, r: RowV, set: RecordV, uniq: Seq<Seq<char>>, now: int)
    -> Result<Seq<(Seq<char>, ValueV)>, ErrV>
    decreases set.len(),
{
    if set.len() == 0 {
        Ok(r.data)
    } else {
        match update_row(cfg, table, rows, r, set.drop_last(), uniq, now) {
            Err(e) => Err(e),
            Ok(d) => {
                let k = set.last().0;
                let v = set.last().1;
                match parse_spec(type_spec(cfg, table, k), v) {
                    None => Err(ErrV::InvalidValue(k, v)),
                    Some(x) => if uniq.contains(k) && has_dup(rows, k, x, now, Some(r.id)) {
                        Err(ErrV::DuplicateValue(k, v))
                    } else {
                        Ok(data_set(d, k, x))
                    },
                }
            },
        }
    }
}

/// The first `n` rows visited by an update, in order; the first failure stops it.
pub open spec fn update_fold(cfg: Seq<TableV>, table: Seq<char>, rows: Seq<RowV>, set: RecordV, w: Seq<Seq<CondV>>, uniq: Seq<Seq<char>>, now: int, n: nat)
    -> (Seq<RowV>, Result<(), ErrV>)
    decreases n,
{
    if n == 0 {
        (rows, Ok(()))
    } else {
        let (cur, res) = update_fold(cfg, table, rows, set, w, uniq, now, (n - 1) as nat);
        if res is Err {
            (cur, res)
        } else {
            let r = cur[n - 1];
            if live(r, now) && where_holds(cfg, table, r, w) {
                match update_row(cfg, table, cur, r, set, uniq, now) {
                    Ok(d) => (cur.update(n - 1, RowV { id: r.id, data: d, expires_at: r.expires_at }), Ok(())),
                    Err(e) => (cur, Err(e)),
                }
            } else {
                (cur, Ok(()))
            }
        }
    }
}

/// What an update does: the first record of values is laid over every live
/// row that meets the where clause; rows updated before a failure stay so.
pub open spec fn update_spec(tables: Seq<TableStateV>, cfg: Seq<TableV>, q: QueryV, now: int) -> (Seq<TableStateV>, Result<(), ErrV>) {
    let i = table_pos(tables, q.table);
    if i < 0 {
        (tables, Err(ErrV::TableNotFound(q.table)))
    } else if q.values.len() == 0 {
        (tables, Ok(()))
    } else {
        let rows = tables[i].rows;
        let (rows2, res) = update_fold(cfg, q.table, rows, q.values[0], q.where_clauses, unique_names(fields_spec(cfg, q.table)), now, rows.len());
        (tables.update(i, TableStateV { name: tables[i].name, rows: rows2 }), res)
    }
}

/// What the reaper does: every table keeps only its live rows.
pub open spec fn cleanup_spec(tables: Seq<TableStateV>, now: int) -> Seq<TableStateV> {
    tables.map_values(|t: TableStateV| TableStateV { name: t.name, rows: live_rows(t.rows, now) })
}

/// The rows a delete keeps, as `delete_keep` states.
fn delete_keep_exec(cfg: &DbConfig, table: &str, rows: Vec<Row>, w: &Vec<Vec<Condition>>, now: i64) -> (r: Vec<Row>)
    requires
        rows_wf(rows_view(rows@)),
    ensures
        rows_view(r@) == delete_keep(cfg@, table@, rows_view(rows@), w@.map_values(|g: Vec<Condition>| group_view(g)), now as int),
        rows_wf(rows_view(r@)),
{
    let ghost src = rows_view(rows@);
    let ghost wv = w@.map_values(|g: Vec<Condition>| group_view(g));
    let mut rest = rows;
    let n = rest.len();
    let mut out: Vec<Row> = Vec::new();
    let mut i: usize = 0;
    assert(src.subrange(0, 0) =~= Seq::<RowV>::empty());
    while rest.len() > 0
        invariant
            i + rest@.len() == n,
            n == src.len(),
            rows_wf(src),
            rows_view(rest@) == src.subrange(i as int, n as int),
            rows_view(out@) == delete_keep(cfg@, table@, src.subrange(0, i as int), wv, now as int),
            rows_wf(rows_view(out@)),
            wv == w@.map_values(|g: Vec<Condition>| group_view(g)),
        decreases rest.len(),
    {
        let ghost rv = rest@;
        let x = rest.remove(0);
        assert(rest@ =~= rv.subrange(1, rv.len() as int));
        assert(rows_view(rv)[0] == x@);
        assert(x@ == src[i as int]);
        assert forall|k: int| 0 <= k < rest@.len() implies #[trigger] rows_view(rest@)[k] == src.subrange(i + 1, n as int)[k] by {
            assert(rest@[k] == rv[k + 1]);
            assert(rows_view(rv)[k + 1] == src.subrange(i as int, n as int)[k + 1]);
        }
        assert(rows_view(rest@) =~= src.subrange(i + 1, n as int));
        assert(src.subrange(0, i + 1).drop_last() =~= src.subrange(0, i as int));
        assert(data_wf(src[i as int].data));
        let gone = x.is_live(now) && check_where(cfg, table, &x, w);
        if !gone {
            let ghost before = out@;
            let ghost xv = x@;
            out.push(x);
            assert(out@ == before.push(x));
            assert(rows_view(out@) =~= rows_view(before).push(xv));
        }
        i = i + 1;
    }
    assert(src.subrange(0, i as int) =~= src);
    out
}

impl Database {
    /// Runs a delete query at time `now`, as `delete_spec` states.
    pub fn execute_delete(&mut self, q: &Query, now: i64) -> (r: Result<(), DbError>)
        requires
            old(self).wf(),
        ensures
            final(self).wf(),
            final(self)@.config == old(self)@.config,
            final(self)@.counters == old(self)@.counters,
            match r {
                Ok(()) => delete_spec(old(self)@.tables, old(self)@.config, q@, now as int) == Ok::<Seq<TableStateV>, ErrV>(final(self)@.tables),
                Err(e) => delete_spec(old(self)@.tables, old(self)@.config, q@, now as int) == Err::<Seq<TableStateV>, ErrV>(e@)
                    && final(self)@ == old(self)@,
            },
    {
        let idx = match self.find_table(q.table.as_str()) {
            None => {
                return Err(DbError::TableNotFound(q.table.clone()));
            },
            Some(i) => i,
        };
        let ghost tv = self@.tables;
        assert(tv[idx as int] == self.tables@[idx as int]@);
        assert(rows_wf(tv[idx as int].rows));
        let mut rows: Vec<Row> = Vec::new();
        std::mem::swap(&mut rows, &mut self.tables[idx].rows);
        assert(rows_view(rows@) == tv[idx as int].rows);
        let kept = delete_keep_exec(&self.config, q.table.as_str(), rows, &q.where_clauses, now);
        let ghost kv = rows_view(kept@);
        proof {
            lemma_delete_keep_sub(self@.config, q@.table, tv[idx as int].rows, q@.where_clauses, now as int);
        }
        self.tables[idx].rows = kept;
        assert(self@.tables =~= tv.update(idx as int, TableStateV { name: tv[idx as int].name, rows: kv }));
        assert(tables_wf(self@.tables)) by {
            assert forall|k: int| 0 <= k < self@.tables.len() implies rows_wf(#[trigger] self@.tables[k].rows) && ids_unique(self@.tables[k].rows) by {
                if k != idx {
                    assert(self@.tables[k] == tv[k]);
                }
            }
        }
        self.reindex_at(idx, &q.table, Ghost(tv));
        Ok(())
    }

    /// Removes every row that is no longer live at `now`.
    pub fn cleanup_expired_rows(&mut self, now: i64)
        requires
            old(self).wf(),
        ensures
            final(self).wf(),
            final(self)@.config == old(self)@.config,
            final(self)@.counters == old(self)@.counters,
            final(self)@.tables == cleanup_spec(old(self)@.tables, now as int),
    {
        let ghost tv = self@.tables;
        let mut i: usize = 0;
        while i < self.tables.len()
            invariant
                i <= self.tables@.len(),
                self.tables@.len() == tv.len(),
                tables_wf(self@.tables),
                self@.config == old(self)@.config,
                self@.counters == old(self)@.counters,
                tv == old(self)@.tables,
                forall|k: int| 0 <= k < i ==> #[trigger] self@.tables[k] == (TableStateV { name: tv[k].name, rows: live_rows(tv[k].rows, now as int) }),
                forall|k: int| i <= k < tv.len() ==> #[trigger] self@.tables[k] == tv[k],
            decreases self.tables.len() - i,
        {
            let ghost cur = self@.tables;
            assert(cur[i as int] == self.tables@[i as int]@);
            assert(rows_wf(cur[i as int].rows));
            let kept = crate::select::live_copies(&self.tables[i].rows, now);
            let ghost kv = rows_view(kept@);
            proof {
                lemma_live_rows_sub(cur[i as int].rows, now as int);
            }
            self.tables[i].rows = kept;
            assert(self@.tables =~= cur.update(i as int, TableStateV { name: cur[i as int].name, rows: kv }));
            assert(tables_wf(self@.tables)) by {
                assert forall|k: int| 0 <= k < self@.tables.len() implies rows_wf(#[trigger] self@.tables[k].rows) && ids_unique(self@.tables[k].rows) by {
                    if k != i {
                        assert(self@.tables[k] == cur[k]);
                    }
                }
            }
            i = i + 1;
        }
        assert(self@.tables =~= cleanup_spec(tv, now as int));
        self.rebuild_indexes();
    }
}


fn contains_text(v: &Vec<String>, k: &str) -> (r: bool)
    ensures
        r == strings_view(v@).contains(k@),
{
    let ghost sv = strings_view(v@);
    let mut i: usize = 0;
    while i < v.len()
        invariant
            i <= v@.len(),
            sv == strings_view(v@),
            forall|j: int| 0 <= j < i ==> sv[j] != k@,
        decreases v.len() - i,
    {
        assert(sv[i as int] == v@[i as int]@);
        if str_eq(v[i].as_str(), k) {
            return true;
        }
        i = i + 1;
    }
    false
}

proof fn lemma_update_row_err(cfg: Seq<TableV>, table: Seq<char>, rows: Seq<RowV>, r: RowV, set: RecordV, uniq: Seq<Seq<char>>, now: int, k: int)
    requires
        0 <= k <= set.len(),
        update_row(cfg, table, rows, r, set.subrange(0, k), uniq, now) is Err,
    ensures
        update_row(cfg, table, rows, r, set, uniq, now) == update_row(cfg, table, rows, r, set.subrange(0, k), uniq, now),
    decreases set.len() - k,
{
    if k < set.len() {
        assert(set.subrange(0, k + 1).drop_last() =~= set.subrange(0, k));
        lemma_update_row_err(cfg, table, rows, r, set, uniq, now, k + 1);
    } else {
        assert(set.subrange(0, k) =~= set);
    }
}

/// The fields of a row with the set-map laid over it, as `update_row` states.
fn update_row_exec(
    cfg: &DbConfig,
    table: &str,
    rows: &Vec<Row>,
    r: &Row,
    set: &Vec<(String, String)>,
    uniq: &Vec<String>,
    now: i64,
) -> (res: Result<Vec<(String, Value)>, DbError>)
    requires
        data_wf(r@.data),
        crate::row::keys_unique(r@.data),
    ensures
        crate::row::keys_unique(match res { Ok(d) => data_view(d@), Err(_) => r@.data }),
        match res {
            Ok(d) => update_row(cfg@, table@, rows_view(rows@), r@, record_view(*set), strings_view(uniq@), now as int)
                == Ok::<Seq<(Seq<char>, ValueV)>, ErrV>(data_view(d@)) && data_wf(data_view(d@)),
            Err(e) => update_row(cfg@, table@, rows_view(rows@), r@, record_view(*set), strings_view(uniq@), now as int)
                == Err::<Seq<(Seq<char>, ValueV)>, ErrV>(e@),
        },
{
    let ghost sv = record_view(*set);
    let mut d = copy_data(&r.data);
    let mut i: usize = 0;
    assert(sv.subrange(0, 0) =~= Seq::<(Seq<char>, Seq<char>)>::empty());
    while i < set.len()
        invariant
            i <= set@.len(),
            sv == record_view(*set),
            sv.len() == set@.len(),
            data_wf(data_view(d@)),
            crate::row::keys_unique(data_view(d@)),
            crate::row::keys_unique(r@.data),
            update_row(cfg@, table@, rows_view(rows@), r@, sv.subrange(0, i as int), strings_view(uniq@), now as int)
                == Ok::<Seq<(Seq<char>, ValueV)>, ErrV>(data_view(d@)),
        decreases set.len() - i,
    {
        assert(sv.subrange(0, i + 1).drop_last() =~= sv.subrange(0, i as int));
        assert(sv.subrange(0, i + 1).last() == (set@[i as int].0@, set@[i as int].1@));
        let k = &set[i].0;
        let v = &set[i].1;
        let t = cfg.field_type(table, k.as_str());
        match Value::parse_as(t, v.as_str()) {
            None => {
                proof {
                    lemma_update_row_err(cfg@, table@, rows_view(rows@), r@, sv, strings_view(uniq@), now as int, i + 1);
                }
                return Err(DbError::InvalidValue(k.clone(), v.clone()));
            },
            Some(x) => {
                if contains_text(uniq, k.as_str()) && has_dup_exec(rows, k.as_str(), &x, now, Some(r.id)) {
                    proof {
                        lemma_update_row_err(cfg@, table@, rows_view(rows@), r@, sv, strings_view(uniq@), now as int, i + 1);
                    }
                    return Err(DbError::DuplicateValue(k.clone(), v.clone()));
                }
                proof {
                    lemma_data_set_wf(data_view(d@), k@, x@);
                    crate::row::lemma_data_set_keys(data_view(d@), k@, x@);
                }
                set_field(&mut d, k.clone(), x);
            },
        }
        i = i + 1;
    }
    assert(sv.subrange(0, i as int) =~= sv);
    Ok(d)
}

proof fn lemma_update_fold_err(cfg: Seq<TableV>, table: Seq<char>, rows: Seq<RowV>, set: RecordV, w: Seq<Seq<CondV>>, uniq: Seq<Seq<char>>, now: int, k: nat, n: nat)
    requires
        k <= n,
        update_fold(cfg, table, rows, set, w, uniq, now, k).1 is Err,
    ensures
        update_fold(cfg, table, rows, set, w, uniq, now, n) == update_fold(cfg, table, rows, set, w, uniq, now, k),
    decreases n - k,
{
    if k < n {
        lemma_update_fold_err(cfg, table, rows, set, w, uniq, now, k, (n - 1) as nat);
    }
}

proof fn lemma_update_fold_len(cfg: Seq<TableV>, table: Seq<char>, rows: Seq<RowV>, set: RecordV, w: Seq<Seq<CondV>>, uniq: Seq<Seq<char>>, now: int, n: nat)
    requires
        n <= rows.len(),
    ensures
        update_fold(cfg, table, rows, set, w, uniq, now, n).0.len() == rows.len(),
        forall|j: int| n <= j < rows.len() ==> #[trigger] update_fold(cfg, table, rows, set, w, uniq, now, n).0[j] == rows[j],
    decreases n,
{
    if n > 0 {
        lemma_update_fold_len(cfg, table, rows, set, w, uniq, now, (n - 1) as nat);
    }
}

impl Database {
    /// Runs an update query at time `now`, as `update_spec` states.
    #[verifier::rlimit(60)]
    pub fn execute_update(&mut self, q: &Query, now: i64) -> (r: Result<(), DbError>)
        requires
            old(self).wf(),
        ensures
            final(self).wf(),
            final(self)@.config == old(self)@.config,
            final(self)@.counters == old(self)@.counters,
            (final(self)@.tables, match r { Ok(()) => Ok::<(), ErrV>(()), Err(e) => Err::<(), ErrV>(e@) })
                == update_spec(old(self)@.tables, old(self)@.config, q@, now as int),
    {
        let idx = match self.find_table(q.table.as_str()) {
            None => {
                return Err(DbError::TableNotFound(q.table.clone()));
            },
            Some(i) => i,
        };
        if q.values.len() == 0 {
            return Ok(());
        }
        let set = &q.values[0];
        assert(q@.values[0] == record_view(*set));
        let uniq = self.config.unique_fields(q.table.as_str());
        let ghost tv = self@.tables;
        let ghost rows0 = tv[idx as int].rows;
        let ghost wv = q@.where_clauses;
        let ghost uv = unique_names(fields_spec(self@.config, q@.table));
        assert(tv[idx as int] == self.tables@[idx as int]@);
        let n = self.tables[idx].rows.len();
        let mut i: usize = 0;
        while i < n
            invariant
                i <= n,
                n == rows0.len(),
                idx < tv.len(),
                tables_wf(self@.tables),
                self@.config == old(self)@.config,
                self@.counters == old(self)@.counters,
                tv == old(self)@.tables,
                self@.indexes == old(self)@.indexes,
                old(self)@.indexes == crate::index::index_set(old(self)@.config, tv),
                table_pos(tv, q@.table) == idx as int,
                rows0 == tv[idx as int].rows,
                q@.values.len() > 0,
                q@.values[0] == record_view(*set),
                wv == q@.where_clauses,
                strings_view(uniq@) == uv,
                uv == unique_names(fields_spec(old(self)@.config, q@.table)),
                self@.tables.len() == tv.len(),
                forall|k: int| 0 <= k < tv.len() && k != idx ==> #[trigger] self@.tables[k] == tv[k],
                self@.tables[idx as int].name == tv[idx as int].name,
                update_fold(self@.config, q@.table, rows0, record_view(*set), wv, uv, now as int, i as nat)
                    == (self@.tables[idx as int].rows, Ok::<(), ErrV>(())),
            decreases n - i,
        {
            proof {
                lemma_update_fold_len(self@.config, q@.table, rows0, record_view(*set), wv, uv, now as int, i as nat);
            }
            let ghost cur = self@.tables[idx as int].rows;
            assert(cur == rows_view(self.tables@[idx as int].rows@));
            assert(rows_wf(cur));
            assert(cur[i as int] == self.tables@[idx as int].rows@[i as int]@);
            assert(data_wf(cur[i as int].data));
            let hit = self.tables[idx].rows[i].is_live(now) && check_where(&self.config, q.table.as_str(), &self.tables[idx].rows[i], &q.where_clauses);
            if hit {
                match update_row_exec(&self.config, q.table.as_str(), &self.tables[idx].rows, &self.tables[idx].rows[i], set, &uniq, now) {
                    Err(e) => {
                        proof {
                            lemma_update_fold_err(self@.config, q@.table, rows0, record_view(*set), wv, uv, now as int, (i + 1) as nat, n as nat);
                            assert(self@.tables =~= tv.update(idx as int, TableStateV { name: tv[idx as int].name, rows: cur }));
                        }
                        self.reindex_at(idx, &q.table, Ghost(tv));
                        return Err(e);
                    },
                    Ok(d) => {
                        let ghost dv = data_view(d@);
                        let ghost old_row = cur[i as int];
                        let ghost before = self@.tables;
                        self.tables[idx].rows[i].data = d;
                        assert(rows_view(self.tables@[idx as int].rows@) =~= cur.update(i as int, RowV { id: old_row.id, data: dv, expires_at: old_row.expires_at }));
                        assert(self@.tables[idx as int].rows == cur.update(i as int, RowV { id: old_row.id, data: dv, expires_at: old_row.expires_at }));
                        assert forall|k: int| 0 <= k < tv.len() && k != idx implies #[trigger] self@.tables[k] == tv[k] by {
                            assert(self@.tables[k] == before[k]);
                        }
                        assert(tables_wf(self@.tables)) by {
                            assert forall|k: int| 0 <= k < self@.tables.len() implies rows_wf(#[trigger] self@.tables[k].rows) && ids_unique(self@.tables[k].rows)
                                && crate::db::rows_keys_unique(self@.tables[k].rows) by {
                                if k != idx {
                                    assert(self@.tables[k] == before[k]);
                                } else {
                                    let nr = self@.tables[k].rows;
                                    assert(before[k].rows == cur);
                                    assert forall|j: int| 0 <= j < nr.len() implies data_wf(#[trigger] nr[j].data) by {
                                        if j != i {
                                            assert(nr[j] == cur[j]);
                                        }
                                    }
                                    assert forall|j: int| 0 <= j < nr.len() implies crate::row::keys_unique(#[trigger] nr[j].data) by {
                                        if j != i {
                                            assert(nr[j] == cur[j]);
                                        }
                                    }
                                    assert forall|a: int, b: int| 0 <= a < b < nr.len() implies #[trigger] nr[a].id != #[trigger] nr[b].id by {
                                        assert(nr[a].id == cur[a].id);
                                        assert(nr[b].id == cur[b].id);
                                    }
                                }
                            }
                            let nt = self@.tables;
                            assert forall|a: int, b: int| 0 <= a < b < nt.len() implies #[trigger] nt[a].name != #[trigger] nt[b].name by {
                                assert(nt[a].name == before[a].name && nt[b].name == before[b].name);
                            }
                        }
                    },
                }
            }
            i = i + 1;
        }
        assert(self@.tables =~= tv.update(idx as int, TableStateV { name: tv[idx as int].name, rows: self@.tables[idx as int].rows }));
        self.reindex_at(idx, &q.table, Ghost(tv));
        Ok(())
    }
}


pub proof fn lemma_live_rows_live(rows: Seq<RowV>, now: int)
    ensures
        forall|j: int| 0 <= j < live_rows(rows, now).len() ==> live(#[trigger] live_rows(rows, now)[j], now),
    decreases rows.len(),
{
    if rows.len() > 0 {
        lemma_live_rows_live(rows.drop_last(), now);
        let rest = live_rows(rows.drop_last(), now);
        assert forall|j: int| 0 <= j < live_rows(rows, now).len() implies live(#[trigger] live_rows(rows, now)[j], now) by {
            if j < rest.len() {
                assert(live_rows(rows, now)[j] == rest[j]);
            }
        }
    }
}

/// After a sweep of the reaper no table holds a row that has expired, and
/// the table names stay as they were.
pub proof fn lemma_cleanup_leaves_live_rows(tables: Seq<TableStateV>, now: int)
    ensures
        cleanup_spec(tables, now).len() == tables.len(),
        forall|k: int, j: int| 0 <= k < tables.len() && 0 <= j < cleanup_spec(tables, now)[k].rows.len()
            ==> live(#[trigger] cleanup_spec(tables, now)[k].rows[j], now),
        forall|k: int| 0 <= k < tables.len() ==> #[trigger] cleanup_spec(tables, now)[k].name == tables[k].name,
{
    assert forall|k: int, j: int| 0 <= k < tables.len() && 0 <= j < cleanup_spec(tables, now)[k].rows.len()
        implies live(#[trigger] cleanup_spec(tables, now)[k].rows[j], now) by {
        lemma_live_rows_live(tables[k].rows, now);
    }
}


/// What a delete keeps is drawn from the rows, so ids stay distinct.
pub proof fn lemma_delete_keep_sub(cfg: Seq<TableV>, table: Seq<char>, rows: Seq<RowV>, w: Seq<Seq<CondV>>, now: int)
    ensures
        forall|a: int| 0 <= a < delete_keep(cfg, table, rows, w, now).len()
            ==> exists|j: int| 0 <= j < rows.len() && rows[j] == #[trigger] delete_keep(cfg, table, rows, w, now)[a],
        ids_unique(rows) ==> ids_unique(delete_keep(cfg, table, rows, w, now)),
    decreases rows.len(),
{
    if rows.len() > 0 {
        let init = rows.drop_last();
        let rest = delete_keep(cfg, table, init, w, now);
        let out = delete_keep(cfg, table, rows, w, now);
        lemma_delete_keep_sub(cfg, table, init, w, now);
        assert forall|a: int| 0 <= a < out.len() implies exists|j: int| 0 <= j < rows.len() && rows[j] == #[trigger] out[a] by {
            if a < rest.len() {
                assert(out[a] == rest[a]);
                let j = choose|j: int| 0 <= j < init.len() && init[j] == rest[a];
                assert(rows[j] == init[j]);
            } else {
                assert(out[a] == rows[rows.len() - 1]);
            }
        }
        if ids_unique(rows) {
            assert(ids_unique(init)) by {
                assert forall|a: int, b: int| 0 <= a < b < init.len() implies #[trigger] init[a].id != #[trigger] init[b].id by {
                    assert(init[a] == rows[a] && init[b] == rows[b]);
                }
            }
            assert forall|a: int, b: int| 0 <= a < b < out.len() implies #[trigger] out[a].id != #[trigger] out[b].id by {
                assert(out[a] == rest[a]);
                let ja = choose|j: int| 0 <= j < init.len() && init[j] == rest[a];
                if b < rest.len() {
                    assert(out[b] == rest[b]);
                } else {
                    assert(out[b] == rows[rows.len() - 1]);
                    assert(rows[ja] == init[ja]);
                }
            }
        }
    }
}

/// The live rows are drawn from the rows, so ids stay distinct.
pub proof fn lemma_live_rows_sub(rows: Seq<RowV>, now: int)
    ensures
        forall|a: int| 0 <= a < live_rows(rows, now).len()
            ==> exists|j: int| 0 <= j < rows.len() && rows[j] == #[trigger] live_rows(rows, now)[a],
        ids_unique(rows) ==> ids_unique(live_rows(rows, now)),
    decreases rows.len(),
{
    if rows.len() > 0 {
        let init = rows.drop_last();
        let rest = live_rows(init, now);
        let out = live_rows(rows, now);
        lemma_live_rows_sub(init, now);
        assert forall|a: int| 0 <= a < out.len() implies exists|j: int| 0 <= j < rows.len() && rows[j] == #[trigger] out[a] by {
            if a < rest.len() {
                assert(out[a] == rest[a]);
                let j = choose|j: int| 0 <= j < init.len() && init[j] == rest[a];
                assert(rows[j] == init[j]);
            } else {
                assert(out[a] == rows[rows.len() - 1]);
            }
        }
        if ids_unique(rows) {
            assert(ids_unique(init)) by {
                assert forall|a: int, b: int| 0 <= a < b < init.len() implies #[trigger] init[a].id != #[trigger] init[b].id by {
                    assert(init[a] == rows[a] && init[b] == rows[b]);
                }
            }
            assert forall|a: int, b: int| 0 <= a < b < out.len() implies #[trigger] out[a].id != #[trigger] out[b].id by {
                assert(out[a] == rest[a]);
                let ja = choose|j: int| 0 <= j < init.len() && init[j] == rest[a];
                if b < rest.len() {
                    assert(out[b] == rest[b]);
                } else {
                    assert(out[b] == rows[rows.len() - 1]);
                    assert(rows[ja] == init[ja]);
                }
            }
        }
    }
}


proof fn lemma_carriers_from_rows(rows: Seq<RowV>, f: Seq<char>, fulltext: bool, k: Seq<char>, id: int)
    requires
        crate::index::carriers(rows, f, fulltext, k).contains(id),
    ensures
        exists|j: int| 0 <= j < rows.len() && #[trigger] rows[j].id == id,
    decreases rows.len(),
{
    let init = rows.drop_last();
    let c0 = crate::index::carriers(init, f, fulltext, k);
    let all = crate::index::carriers(rows, f, fulltext, k);
    let p = choose|p: int| 0 <= p < all.len() && all[p] == id;
    if p < c0.len() {
        assert(c0[p] == id);
        lemma_carriers_from_rows(init, f, fulltext, k, id);
        let j = choose|j: int| 0 <= j < init.len() && #[trigger] init[j].id == id;
        assert(rows[j] == init[j]);
    } else {
        assert(rows[rows.len() - 1].id == id);
    }
}

/// After a sweep of the reaper, every id that an index lists under any key
/// is the id of a row of that table that was live at the sweep: a row that
/// had expired (and whose id no live row shares) is gone from every
/// secondary and full-text posting.
pub proof fn lemma_cleanup_clears_postings(cfg: Seq<TableV>, tables: Seq<TableStateV>, now: int, p: int, key: Seq<char>, id: int)
    requires
        0 <= p < crate::index::index_set(cfg, cleanup_spec(tables, now)).len(),
        crate::index::entry_ids(crate::index::index_set(cfg, cleanup_spec(tables, now))[p].entries, key).contains(id),
    ensures
        exists|j: int| 0 <= j < crate::index::rows_or_empty(tables, crate::index::index_set(cfg, cleanup_spec(tables, now))[p].table).len()
            && #[trigger] crate::index::rows_or_empty(tables, crate::index::index_set(cfg, cleanup_spec(tables, now))[p].table)[j].id == id
            && live(crate::index::rows_or_empty(tables, crate::index::index_set(cfg, cleanup_spec(tables, now))[p].table)[j], now),
{
    let t2 = cleanup_spec(tables, now);
    let ix = crate::index::index_set(cfg, t2)[p];
    let r_old = crate::index::rows_or_empty(tables, ix.table);
    let r_new = crate::index::rows_or_empty(t2, ix.table);
    crate::index::lemma_index_set_built(cfg, t2, p);
    crate::index::lemma_index_exact(r_new, ix.field, ix.fulltext, key);
    assert(t2.map_values(|t: TableStateV| t.name) =~= tables.map_values(|t: TableStateV| t.name));
    let pos = table_pos(tables, ix.table);
    assert(table_pos(t2, ix.table) == pos);
    if pos < 0 {
        assert(live_rows(Seq::<RowV>::empty(), now) =~= Seq::<RowV>::empty());
    } else {
        crate::index::lemma_first_index_props(tables.map_values(|t: TableStateV| t.name), ix.table);
    }
    assert(r_new == live_rows(r_old, now));
    lemma_carriers_from_rows(r_new, ix.field, ix.fulltext, key, id);
    let j = choose|j: int| 0 <= j < r_new.len() && #[trigger] r_new[j].id == id;
    lemma_live_rows_live(r_old, now);
    lemma_live_rows_sub(r_old, now);
    let j2 = choose|j2: int| 0 <= j2 < r_old.len() && r_old[j2] == r_new[j];
    assert(r_old[j2].id == id && live(r_old[j2], now));
}

} // verus!
