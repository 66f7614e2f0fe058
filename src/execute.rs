use vstd::prelude::*;

use crate::db::{Database, DbError, ErrV, TableStateV, rows_wf, table_pos};
use crate::insert::{CountersV, insert_all, insert_one, insert_spec, refresh, with_table};
use crate::schema::unique_names;
use crate::mutate::{delete_spec, update_spec};
use crate::query::{CondV, Condition, Query, QueryOp, QueryV, group_view, record_view, strings_view};
use crate::schema::{TableV, autoincrement_names, fields_spec};
use crate::select::{RecordV, results_view, select_spec};

verus! {

/// An intent recorded in the write-ahead log before it is applied.
#[derive(Debug)]
pub enum WalOperation {
    Insert { table: String, values: Vec<Vec<(String, String)>> },
    Update { table: String, values: Vec<(String, String)>, where_clauses: Vec<Vec<Condition>> },
    Delete { table: String, where_clauses: Vec<Vec<Condition>> },
}

pub enum WalOpV {
    Insert { table: Seq<char>, values: Seq<RecordV> },
    Update { table: Seq<char>, values: RecordV, where_clauses: Seq<Seq<CondV>> },
    Delete { table: Seq<char>, where_clauses: Seq<Seq<CondV>> },
}

pub open spec fn where_view(w: Seq<Vec<Condition>>) -> Seq<Seq<CondV>> {
    w.map_values(|g: Vec<Condition>| group_view(g))
}

pub open spec fn records_of(v: Seq<Vec<(String, String)>>) -> Seq<RecordV> {
    v.map_values(|r: Vec<(String, String)>| record_view(r))
}

impl View for WalOperation {
    type V = WalOpV;

    open spec fn view(&self) -> WalOpV {
        match self {
            WalOperation::Insert { table, values } => WalOpV::Insert { table: table@, values: records_of(values@) },
            WalOperation::Update { table, values, where_clauses } => WalOpV::Update {
                table: table@,
                values: record_view(*values),
                where_clauses: where_view(where_clauses@),
            },
            WalOperation::Delete { table, where_clauses } => WalOpV::Delete { table: table@, where_clauses: where_view(where_clauses@) },
        }
    }
}

impl Condition {
    /// A copy of the condition.
    pub fn copy(&self) -> (r: Condition)
        ensures
            r@ == self@,
    {
        match self {
            Condition::Eq(f, v) => Condition::Eq(f.clone(), v.clone()),
            Condition::Lt(f, v) => Condition::Lt(f.clone(), v.clone()),
            Condition::Gt(f, v) => Condition::Gt(f.clone(), v.clone()),
            Condition::Contains(f, v) => Condition::Contains(f.clone(), v.clone()),
            Condition::In(f, vs) => Condition::In(f.clone(), copy_texts(vs)),
            Condition::Between(f, lo, hi) => Condition::Between(f.clone(), lo.clone(), hi.clone()),
        }
    }
}

fn copy_texts(v: &Vec<String>) -> (r: Vec<String>)
    ensures
        strings_view(r@) == strings_view(v@),
{
    let mut r: Vec<String> = Vec::new();
    let mut i: usize = 0;
    while i < v.len()
        invariant
            i <= v@.len(),
            strings_view(r@) == strings_view(v@.subrange(0, i as int)),
        decreases v.len() - i,
    {
        let ghost before = r@;
        let s = v[i].clone();
        r.push(s);
        assert(r@ == before.push(s));
        assert(v@.subrange(0, i + 1) == v@.subrange(0, i as int).push(v@[i as int]));
        assert(strings_view(r@) =~= strings_view(before).push(s@));
        assert(strings_view(r@) =~= strings_view(v@.subrange(0, i + 1)));
        i = i + 1;
    }
    assert(v@.subrange(0, i as int) =~= v@);
    r
}

fn copy_record(v: &Vec<(String, String)>) -> (r: Vec<(String, String)>)
    ensures
        record_view(r) == record_view(*v),
{
    let mut r: Vec<(String, String)> = Vec::new();
    let mut i: usize = 0;
    while i < v.len()
        invariant
            i <= v@.len(),
            record_view(r) == crate::query::pairs_view(v@.subrange(0, i as int)),
        decreases v.len() - i,
    {
        let ghost before = r@;
        let e = (v[i].0.clone(), v[i].1.clone());
        r.push(e);
        assert(r@ == before.push(e));
        assert(v@.subrange(0, i + 1) == v@.subrange(0, i as int).push(v@[i as int]));
        assert(record_view(r) =~= crate::query::pairs_view(before).push((e.0@, e.1@)));
        assert(record_view(r) =~= crate::query::pairs_view(v@.subrange(0, i + 1)));
        i = i + 1;
    }
    assert(v@.subrange(0, i as int) =~= v@);
    r
}

fn copy_records(v: &Vec<Vec<(String, String)>>) -> (r: Vec<Vec<(String, String)>>)
    ensures
        records_of(r@) == records_of(v@),
{
    let mut r: Vec<Vec<(String, String)>> = Vec::new();
    let mut i: usize = 0;
    while i < v.len()
        invariant
            i <= v@.len(),
            records_of(r@) == records_of(v@.subrange(0, i as int)),
        decreases v.len() - i,
    {
        let ghost before = r@;
        let e = copy_record(&v[i]);
        r.push(e);
        assert(r@ == before.push(e));
        assert(v@.subrange(0, i + 1) == v@.subrange(0, i as int).push(v@[i as int]));
        assert(records_of(r@) =~= records_of(before).push(record_view(e)));
        assert(records_of(r@) =~= records_of(v@.subrange(0, i + 1)));
        i = i + 1;
    }
    assert(v@.subrange(0, i as int) =~= v@);
    r
}

fn copy_where(w: &Vec<Vec<Condition>>) -> (r: Vec<Vec<Condition>>)
    ensures
        where_view(r@) == where_view(w@),
{
    let mut r: Vec<Vec<Condition>> = Vec::new();
    let mut i: usize = 0;
    while i < w.len()
        invariant
            i <= w@.len(),
            where_view(r@) == where_view(w@.subrange(0, i as int)),
        decreases w.len() - i,
    {
        let g = &w[i];
        let mut ng: Vec<Condition> = Vec::new();
        let mut j: usize = 0;
        while j < g.len()
            invariant
                j <= g@.len(),
                ng@.map_values(|c: Condition| c@) == g@.subrange(0, j as int).map_values(|c: Condition| c@),
            decreases g.len() - j,
        {
            let ghost gb = ng@;
            let c = g[j].copy();
            ng.push(c);
            assert(ng@ == gb.push(c));
            assert(g@.subrange(0, j + 1) == g@.subrange(0, j as int).push(g@[j as int]));
            assert(ng@.map_values(|c: Condition| c@) =~= gb.map_values(|c: Condition| c@).push(c@));
            assert(ng@.map_values(|c: Condition| c@) =~= g@.subrange(0, j + 1).map_values(|c: Condition| c@));
            j = j + 1;
        }
        assert(g@.subrange(0, j as int) =~= g@);
        assert(group_view(ng) == group_view(*g));
        let ghost before = r@;
        r.push(ng);
        assert(r@ == before.push(ng));
        assert(w@.subrange(0, i + 1) == w@.subrange(0, i as int).push(w@[i as int]));
        assert(where_view(r@) =~= where_view(before).push(group_view(ng)));
        assert(where_view(r@) =~= where_view(w@.subrange(0, i + 1)));
        i = i + 1;
    }
    assert(w@.subrange(0, i as int) =~= w@);
    r
}

/// The log record a query calls for: none for a select, nor for an update
/// with no values.
pub open spec fn wal_spec(q: QueryV) -> Option<WalOpV> {
    match q.op {
        QueryOp::Select => None,
        QueryOp::Insert => Some(WalOpV::Insert { table: q.table, values: q.values }),
        QueryOp::Update => if q.values.len() == 0 {
            None
        } else {
            Some(WalOpV::Update { table: q.table, values: q.values[0], where_clauses: q.where_clauses })
        },
        QueryOp::Delete => Some(WalOpV::Delete { table: q.table, where_clauses: q.where_clauses }),
    }
}

/// What running a query does to the tables and counters, and what it returns.
pub open spec fn execute_spec(tables: Seq<TableStateV>, cfg: Seq<TableV>, cs: CountersV, q: QueryV, now: int)
    -> (Seq<TableStateV>, CountersV, Result<Option<Seq<RecordV>>, ErrV>)
{
    match q.op {
        QueryOp::Select => (tables, cs, select_spec(tables, cfg, q, now)),
        QueryOp::Insert => {
            let (t, c, r) = insert_spec(tables, cfg, cs, q, now);
            (t, c, match r { Ok(()) => Ok(None), Err(e) => Err(e) })
        },
        QueryOp::Update => if q.values.len() == 0 {
            (tables, cs, Ok(None))
        } else {
            let (t, r) = update_spec(tables, cfg, q, now);
            (t, cs, match r { Ok(()) => Ok(None), Err(e) => Err(e) })
        },
        QueryOp::Delete => match delete_spec(tables, cfg, q, now) {
            Ok(t) => (t, cs, Ok(None)),
            Err(e) => (tables, cs, Err(e)),
        },
    }
}

impl Query {
    /// The log record this query calls for, as `wal_spec` states.
    pub fn wal_operation(&self) -> (r: Option<WalOperation>)
        ensures
            match r {
                Some(op) => wal_spec(self@) == Some(op@),
                None => wal_spec(self@) is None,
            },
    {
        match self.op {
            QueryOp::Select => None,
            QueryOp::Insert => Some(WalOperation::Insert { table: self.table.clone(), values: copy_records(&self.values) }),
            QueryOp::Update => {
                if self.values.len() == 0 {
                    None
                } else {
                    assert(self@.values[0] == record_view(self.values@[0]));
                    Some(WalOperation::Update {
                        table: self.table.clone(),
                        values: copy_record(&self.values[0]),
                        where_clauses: copy_where(&self.where_clauses),
                    })
                }
            },
            QueryOp::Delete => Some(WalOperation::Delete { table: self.table.clone(), where_clauses: copy_where(&self.where_clauses) }),
        }
    }

    /// Runs the query against the engine at time `now`, as `execute_spec`
    /// states: a select returns its rows, a mutation returns `None`.
    pub fn execute(&self, db: &mut Database, now: i64) -> (r: Result<Option<Vec<Vec<(String, String)>>>, DbError>)
        requires
            old(db).wf(),
        ensures
            final(db).wf(),
            final(db)@.config == old(db)@.config,
            (final(db)@.tables, final(db)@.counters, match r {
                Ok(v) => Ok::<Option<Seq<RecordV>>, ErrV>(results_view(v)),
                Err(e) => Err::<Option<Seq<RecordV>>, ErrV>(e@),
            }) == execute_spec(old(db)@.tables, old(db)@.config, old(db)@.counters, self@, now as int),
    {
        match self.op {
            QueryOp::Select => db.execute_select(self, now),
            QueryOp::Insert => match db.execute_insert(self, now) {
                Ok(()) => Ok(None),
                Err(e) => Err(e),
            },
            QueryOp::Update => {
                if self.values.len() == 0 {
                    return Ok(None);
                }
                match db.execute_update(self, now) {
                    Ok(()) => Ok(None),
                    Err(e) => Err(e),
                }
            },
            QueryOp::Delete => match db.execute_delete(self, now) {
                Ok(()) => Ok(None),
                Err(e) => Err(e),
            },
        }
    }
}


/// Records replayed in order, as the insert ran them, except that a record
/// colliding on a unique field (it went in before the log was emptied) is
/// skipped. Any other failure stops the batch there, as it stopped the
/// insert; the flag says whether the batch stopped.
pub open spec fn replay_all(
    tables: Seq<TableStateV>,
    cfg: Seq<TableV>,
    cs: CountersV,
    table: Seq<char>,
    tpos: int,
    recs: Seq<RecordV>,
    now: int,
) -> (Seq<TableStateV>, CountersV, bool)
    decreases recs.len(),
{
    if recs.len() == 0 {
        (tables, cs, false)
    } else {
        let (t1, c1, stopped) = replay_all(tables, cfg, cs, table, tpos, recs.drop_last(), now);
        if stopped {
            (t1, c1, true)
        } else {
            match insert_one(t1, cfg, c1, table, tpos, recs.last(), now) {
                Ok((t2, c2)) => (t2, c2, false),
                Err(ErrV::DuplicateValue(_, _)) => (t1, c1, false),
                Err(_) => (t1, c1, true),
            }
        }
    }
}

proof fn lemma_replay_all_stopped(
    tables: Seq<TableStateV>,
    cfg: Seq<TableV>,
    cs: CountersV,
    table: Seq<char>,
    tpos: int,
    recs: Seq<RecordV>,
    now: int,
    k: int,
)
    requires
        0 <= k <= recs.len(),
        replay_all(tables, cfg, cs, table, tpos, recs.subrange(0, k), now).2,
    ensures
        replay_all(tables, cfg, cs, table, tpos, recs, now) == replay_all(tables, cfg, cs, table, tpos, recs.subrange(0, k), now),
    decreases recs.len() - k,
{
    if k < recs.len() {
        assert(recs.subrange(0, k + 1).drop_last() =~= recs.subrange(0, k));
        lemma_replay_all_stopped(tables, cfg, cs, table, tpos, recs, now, k + 1);
    } else {
        assert(recs.subrange(0, k) =~= recs);
    }
}

/// The query that a logged update or delete stands for.
pub open spec fn logged_query(op: QueryOp, table: Seq<char>, values: Seq<RecordV>, w: Seq<Seq<CondV>>) -> QueryV {
    QueryV { values: values, where_clauses: w, ..Query::on_spec(op, table) }
}

/// What replaying a logged operation does: an insert runs as it ran, but
/// skips the records that collide on a unique field; an update or delete
/// that fails changes nothing further.
pub open spec fn replay_spec(tables: Seq<TableStateV>, cfg: Seq<TableV>, cs: CountersV, op: WalOpV, now: int) -> (Seq<TableStateV>, CountersV) {
    match op {
        WalOpV::Insert { table, values } => {
            let t1 = with_table(tables, table);
            let tpos = table_pos(t1, table);
            let c1 = refresh(cs, table, autoincrement_names(fields_spec(cfg, table)), t1[tpos].rows);
            let (t2, c2, _) = replay_all(t1, cfg, c1, table, tpos, values, now);
            (t2, c2)
        },
        WalOpV::Update { table, values, where_clauses } =>
            (update_spec(tables, cfg, logged_query(QueryOp::Update, table, seq![values], where_clauses), now).0, cs),
        WalOpV::Delete { table, where_clauses } =>
            match delete_spec(tables, cfg, logged_query(QueryOp::Delete, table, Seq::empty(), where_clauses), now) {
                Ok(t) => (t, cs),
                Err(_) => (tables, cs),
            },
    }
}

impl Database {
    /// Re-applies a logged operation at time `now`, as `replay_spec` states.
    pub fn replay(&mut self, op: &WalOperation, now: i64)
        requires
            old(self).wf(),
        ensures
            final(self).wf(),
            final(self)@.config == old(self)@.config,
            (final(self)@.tables, final(self)@.counters) == replay_spec(old(self)@.tables, old(self)@.config, old(self)@.counters, op@, now as int),
    {
        match op {
            WalOperation::Insert { table, values } => {
                let tpos = self.ensure_table(table);
                let uniq = self.config.unique_fields(table.as_str());
                let autos = self.config.autoincrement_fields(table.as_str());
                let ghost t1 = self@.tables;
                assert(t1[tpos as int] == self.tables@[tpos as int]@);
                assert(rows_wf(t1[tpos as int].rows));
                let ghost c1 = refresh(old(self)@.counters, table@, strings_view(autos@), t1[tpos as int].rows);
                {
                    let mut cs = crate::insert::copy_counters(&self.counters);
                    crate::insert::refresh_exec(&mut cs, table, &autos, &self.tables[tpos].rows);
                    self.counters = cs;
                }
                let ghost recs = records_of(values@);
                let mut i: usize = 0;
                assert(recs.subrange(0, 0) =~= Seq::<RecordV>::empty());
                while i < values.len()
                    invariant
                        i <= values@.len(),
                        recs == records_of(values@),
                        recs.len() == values@.len(),
                        op@ == (WalOpV::Insert { table: table@, values: recs }),
                        self.wf(),
                        self@.config == old(self)@.config,
                        tpos < self@.tables.len(),
                        tpos as int == table_pos(t1, table@),
                        tpos as int == table_pos(self@.tables, table@),
                        t1 == with_table(old(self)@.tables, table@),
                        c1 == refresh(old(self)@.counters, table@, autoincrement_names(fields_spec(old(self)@.config, table@)), t1[tpos as int].rows),
                        strings_view(uniq@) == unique_names(fields_spec(self@.config, table@)),
                        strings_view(autos@) == autoincrement_names(fields_spec(self@.config, table@)),
                        replay_all(t1, self@.config, c1, table@, tpos as int, recs.subrange(0, i as int), now as int)
                            == (self@.tables, self@.counters, false),
                    decreases values.len() - i,
                {
                    assert(recs.subrange(0, i + 1).drop_last() =~= recs.subrange(0, i as int));
                    assert(recs.subrange(0, i + 1).last() == record_view(values@[i as int]));
                let ghost before = self@;
                    match self.insert_one_exec(tpos, table, &uniq, &autos, &values[i], now) {
                        Ok(()) => {},
                        Err(DbError::DuplicateValue(_, _)) => {},
                        Err(e) => {
                            proof {
                                assert(self@ == before);
                                assert(replay_all(t1, self@.config, c1, table@, tpos as int, recs.subrange(0, i + 1), now as int).2);
                                lemma_replay_all_stopped(t1, self@.config, c1, table@, tpos as int, recs, now as int, i + 1);
                            }
                            return;
                        },
                    }
                    i = i + 1;
                }
                assert(recs.subrange(0, i as int) =~= recs);
            },
            WalOperation::Update { table, values, where_clauses } => {
                let mut q = Query::on(QueryOp::Update, table.as_str());
                let mut vs: Vec<Vec<(String, String)>> = Vec::new();
                vs.push(copy_record(values));
                assert(records_of(vs@) =~= seq![record_view(*values)]);
                q.values = vs;
                q.where_clauses = copy_where(where_clauses);
                assert(q@ == logged_query(QueryOp::Update, table@, seq![record_view(*values)], where_view(where_clauses@)));
                let _ = self.execute_update(&q, now);
            },
            WalOperation::Delete { table, where_clauses } => {
                let mut q = Query::on(QueryOp::Delete, table.as_str());
                q.where_clauses = copy_where(where_clauses);
                assert(q@ == logged_query(QueryOp::Delete, table@, Seq::empty(), where_view(where_clauses@)));
                let _ = self.execute_delete(&q, now);
            },
        }
    }
}


proof fn lemma_replay_all_matches(
    tables: Seq<TableStateV>,
    cfg: Seq<TableV>,
    cs: CountersV,
    table: Seq<char>,
    tpos: int,
    recs: Seq<RecordV>,
    now: int,
)
    requires
        !(insert_all(tables, cfg, cs, table, tpos, recs, now).2 matches Err(ErrV::DuplicateValue(_, _))),
    ensures
        ({
            let (t, c, r) = insert_all(tables, cfg, cs, table, tpos, recs, now);
            replay_all(tables, cfg, cs, table, tpos, recs, now) == (t, c, r is Err)
        }),
    decreases recs.len(),
{
    if recs.len() > 0 {
        let (t1, c1, r1) = insert_all(tables, cfg, cs, table, tpos, recs.drop_last(), now);
        lemma_replay_all_matches(tables, cfg, cs, table, tpos, recs.drop_last(), now);
    }
}

/// Replaying the log record of an insert against the state the insert ran
/// on reproduces the state it left, whenever the insert did not stop at a
/// unique collision: a restart shows what the insert made visible.
pub proof fn lemma_replay_reproduces_insert(tables: Seq<TableStateV>, cfg: Seq<TableV>, cs: CountersV, q: QueryV, now: int)
    requires
        q.op == QueryOp::Insert,
        !(insert_spec(tables, cfg, cs, q, now).2 matches Err(ErrV::DuplicateValue(_, _))),
    ensures
        wal_spec(q) == Some(WalOpV::Insert { table: q.table, values: q.values }),
        replay_spec(tables, cfg, cs, WalOpV::Insert { table: q.table, values: q.values }, now)
            == (insert_spec(tables, cfg, cs, q, now).0, insert_spec(tables, cfg, cs, q, now).1),
{
    let t1 = with_table(tables, q.table);
    let tpos = table_pos(t1, q.table);
    let c1 = refresh(cs, q.table, autoincrement_names(fields_spec(cfg, q.table)), t1[tpos].rows);
    lemma_replay_all_matches(t1, cfg, c1, q.table, tpos, q.values, now);
}

} // verus!
