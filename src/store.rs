use vstd::prelude::*;

use crate::db::{Database, DbError, ErrV, TableStateV, ids_unique, rows_view, rows_wf, table_pos, table_rows, tables_wf};
use crate::insert::{CountersV, refresh, with_table};
use crate::row::{Row, RowV, data_wf};
use crate::schema::{DbConfig, TableV, autoincrement_names, fields_spec};
use crate::value::{Decimal, Value, value_wf};

verus! {

/// What installing a loaded table does: the rows replace the table's (which
/// is added where absent) and its counters rise to what the rows hold.
pub open spec fn install_spec(tables: Seq<TableStateV>, cfg: Seq<TableV>, cs: CountersV, name: Seq<char>, rows: Seq<RowV>)
    -> (Seq<TableStateV>, CountersV)
{
    let t1 = with_table(tables, name);
    let tpos = table_pos(t1, name);
    (t1.update(tpos, TableStateV { name: t1[tpos].name, rows }), refresh(cs, name, autoincrement_names(fields_spec(cfg, name)), rows))
}

/// The tables with one present for each name, in order.
pub open spec fn with_tables(tables: Seq<TableStateV>, names: Seq<Seq<char>>) -> Seq<TableStateV>
    decreases names.len(),
{
    if names.len() == 0 {
        tables
    } else {
        with_table(with_tables(tables, names.drop_last()), names.last())
    }
}

impl Decimal {
    /// Whether the decimal is in lowest terms with a scale in bounds.
    pub fn is_wf(&self) -> (r: bool)
        ensures
            r == self.wf(),
    {
        self.scale <= 18 && (self.scale == 0 || self.mant % 10 != 0)
    }
}

/// Whether every value of every row is well formed.
fn rows_ok(rows: &Vec<Row>) -> (r: bool)
    ensures
        r == rows_wf(rows_view(rows@)),
{
    let ghost rv = rows_view(rows@);
    let mut i: usize = 0;
    while i < rows.len()
        invariant
            i <= rows@.len(),
            rv == rows_view(rows@),
            forall|k: int| 0 <= k < i ==> data_wf(#[trigger] rv[k].data),
        decreases rows.len() - i,
    {
        let d = &rows[i].data;
        assert(rv[i as int].data == crate::row::data_view(d@));
        let mut j: usize = 0;
        while j < d.len()
            invariant
                j <= d@.len(),
                i < rows@.len(),
                rv == rows_view(rows@),
                *d == rows@[i as int].data,
                rv[i as int].data == crate::row::data_view(d@),
                forall|m: int| 0 <= m < j ==> value_wf(#[trigger] crate::row::data_view(d@)[m].1),
            decreases d.len() - j,
        {
            assert(crate::row::data_view(d@)[j as int].1 == d@[j as int].1@);
            let ok = match &d[j].1 {
                Value::Numeric(x) => x.is_wf(),
                _ => true,
            };
            if !ok {
                assert(!value_wf(crate::row::data_view(d@)[j as int].1));
                assert(!data_wf(rv[i as int].data));
                return false;
            }
            j = j + 1;
        }
        assert(data_wf(rv[i as int].data));
        i = i + 1;
    }
    true
}

/// Whether no field name occurs twice in a row's fields.
fn row_keys_distinct(d: &Vec<(String, Value)>) -> (r: bool)
    ensures
        r == crate::row::keys_unique(crate::row::data_view(d@)),
{
    let ghost dv = crate::row::data_view(d@);
    let mut j: usize = 0;
    while j < d.len()
        invariant
            j <= d@.len(),
            dv == crate::row::data_view(d@),
            forall|a: int, b: int| 0 <= a < b < j ==> #[trigger] dv[a].0 != #[trigger] dv[b].0,
        decreases d.len() - j,
    {
        let mut a: usize = 0;
        while a < j
            invariant
                a <= j < d@.len(),
                dv == crate::row::data_view(d@),
                forall|x: int| 0 <= x < a ==> #[trigger] dv[x].0 != dv[j as int].0,
            decreases j - a,
        {
            assert(dv[a as int].0 == d@[a as int].0@ && dv[j as int].0 == d@[j as int].0@);
            if crate::text::str_eq(d[a].0.as_str(), d[j].0.as_str()) {
                return false;
            }
            a = a + 1;
        }
        j = j + 1;
    }
    true
}

/// Whether no row holds two fields of one name.
fn keys_distinct(rows: &Vec<Row>) -> (r: bool)
    ensures
        r == crate::db::rows_keys_unique(rows_view(rows@)),
{
    let ghost rv = rows_view(rows@);
    let mut i: usize = 0;
    while i < rows.len()
        invariant
            i <= rows@.len(),
            rv == rows_view(rows@),
            forall|k: int| 0 <= k < i ==> crate::row::keys_unique(#[trigger] rv[k].data),
        decreases rows.len() - i,
    {
        assert(rv[i as int].data == crate::row::data_view(rows@[i as int].data@));
        if !row_keys_distinct(&rows[i].data) {
            return false;
        }
        i = i + 1;
    }
    true
}

/// Whether no two rows share an id.
fn ids_distinct(rows: &Vec<Row>) -> (r: bool)
    ensures
        r == ids_unique(rows_view(rows@)),
{
    let ghost rv = rows_view(rows@);
    let mut j: usize = 0;
    while j < rows.len()
        invariant
            j <= rows@.len(),
            rv == rows_view(rows@),
            forall|a: int, b: int| 0 <= a < b < j ==> #[trigger] rv[a].id != #[trigger] rv[b].id,
        decreases rows.len() - j,
    {
        let mut a: usize = 0;
        while a < j
            invariant
                a <= j < rows@.len(),
                rv == rows_view(rows@),
                forall|x: int| 0 <= x < a ==> #[trigger] rv[x].id != rv[j as int].id,
            decreases j - a,
        {
            assert(rv[a as int].id == rows@[a as int].id && rv[j as int].id == rows@[j as int].id);
            if rows[a].id == rows[j].id {
                return false;
            }
            a = a + 1;
        }
        j = j + 1;
    }
    true
}

impl Database {
    /// Installs a table loaded from its snapshot, as `install_spec` states;
    /// rows holding a malformed number, sharing an id, or holding a field
    /// name twice, are refused.
    pub fn install_table(&mut self, name: &String, rows: Vec<Row>) -> (r: Result<(), DbError>)
        requires
            old(self).wf(),
        ensures
            final(self).wf(),
            final(self)@.config == old(self)@.config,
            match r {
                Ok(()) => rows_wf(rows_view(rows@)) && ids_unique(rows_view(rows@)) && crate::db::rows_keys_unique(rows_view(rows@))
                    && (final(self)@.tables, final(self)@.counters)
                    == install_spec(old(self)@.tables, old(self)@.config, old(self)@.counters, name@, rows_view(rows@)),
                Err(e) => !(rows_wf(rows_view(rows@)) && ids_unique(rows_view(rows@)) && crate::db::rows_keys_unique(rows_view(rows@))) && e@ == ErrV::SerializationError(name@) && final(self)@ == old(self)@,
            },
    {
        if !rows_ok(&rows) || !ids_distinct(&rows) || !keys_distinct(&rows) {
            return Err(DbError::SerializationError(name.clone()));
        }
        let ghost rv = rows_view(rows@);
        let autos = self.config.autoincrement_fields(name.as_str());
        {
            let mut cs = crate::insert::copy_counters(&self.counters);
            crate::insert::refresh_exec(&mut cs, name, &autos, &rows);
            self.counters = cs;
        }
        let tpos = self.ensure_table(name);
        let ghost t1 = self@.tables;
        self.tables[tpos].rows = rows;
        assert(self@.tables =~= t1.update(tpos as int, TableStateV { name: t1[tpos as int].name, rows: rv }));
        assert(tables_wf(self@.tables)) by {
            assert forall|k: int| 0 <= k < self@.tables.len() implies rows_wf(#[trigger] self@.tables[k].rows) && ids_unique(self@.tables[k].rows)
                && crate::db::rows_keys_unique(self@.tables[k].rows) by {
                if k != tpos {
                    assert(self@.tables[k] == t1[k]);
                }
            }
        }
        self.reindex_at(tpos, name, Ghost(t1));
        Ok(())
    }

    /// Swaps in a new schema: a table exists afterwards for each declared
    /// one (data of tables no longer declared is kept), and the
    /// autoincrement counters start over from what the tables hold.
    pub fn apply_config(&mut self, config: DbConfig)
        requires
            old(self).wf(),
        ensures
            final(self).wf(),
            final(self)@.config == config@,
            final(self)@.counters.len() == 0,
            final(self)@.tables == with_tables(old(self)@.tables, config@.map_values(|t: TableV| t.name)),
    {
        self.config = config;
        self.counters = Vec::new();
        assert(self@.counters =~= Seq::<(Seq<char>, Seq<char>, int)>::empty());
        let ghost names = self@.config.map_values(|t: TableV| t.name);
        let ghost t0 = self@.tables;
        let n = self.config.tables.len();
        let mut i: usize = 0;
        assert(names.subrange(0, 0) =~= Seq::<Seq<char>>::empty());
        while i < n
            invariant
                i <= n,
                n == self.config.tables@.len(),
                names == self@.config.map_values(|t: TableV| t.name),
                names.len() == n,
                tables_wf(self@.tables),
                self@.config == config@,
                self@.counters.len() == 0,
                t0 == old(self)@.tables,
                self@.tables == with_tables(t0, names.subrange(0, i as int)),
            decreases n - i,
        {
            assert(names.subrange(0, i + 1).drop_last() =~= names.subrange(0, i as int));
            assert(names.subrange(0, i + 1).last() == self.config.tables@[i as int].name@);
            let name = self.config.tables[i].name.clone();
            self.ensure_table(&name);
            i = i + 1;
        }
        assert(names.subrange(0, i as int) =~= names);
        self.rebuild_indexes();
    }
}


/// Restarting from a checkpoint: once a table's saved rows are installed,
/// the table holds exactly those rows, whatever it held before, and every
/// other table keeps its rows.
pub proof fn lemma_install_restores_rows(tables: Seq<TableStateV>, cfg: Seq<TableV>, cs: CountersV, name: Seq<char>, rows: Seq<RowV>, other: Seq<char>)
    ensures
        table_rows(install_spec(tables, cfg, cs, name, rows).0, name) == Some(rows),
        other != name ==> table_rows(install_spec(tables, cfg, cs, name, rows).0, other) == table_rows(tables, other),
{
    let t1 = with_table(tables, name);
    let tpos = table_pos(t1, name);
    let t2 = install_spec(tables, cfg, cs, name, rows).0;
    let ns = tables.map_values(|t: TableStateV| t.name);
    if table_pos(tables, name) < 0 {
        crate::index::lemma_first_index_absent(ns, name);
        let ns1 = t1.map_values(|t: TableStateV| t.name);
        assert(ns1 =~= ns.push(name));
        crate::text::lemma_seq_first_index(ns1, name, ns.len() as int);
        if other != name {
            let p = table_pos(tables, other);
            if p >= 0 {
                crate::index::lemma_first_index_props(ns, other);
                assert forall|m: int| 0 <= m < p implies ns1[m] != other by {
                    assert(ns1[m] == ns[m]);
                }
                crate::text::lemma_seq_first_index(ns1, other, p);
            } else {
                crate::index::lemma_first_index_absent(ns, other);
                assert forall|m: int| 0 <= m < ns1.len() implies ns1[m] != other by {
                    if m < ns.len() {
                        assert(ns1[m] == ns[m]);
                    }
                }
                crate::text::lemma_seq_first_index(ns1, other, ns1.len() as int);
            }
        }
    }
    assert(tpos >= 0);
    crate::index::lemma_first_index_props(t1.map_values(|t: TableStateV| t.name), name);
    assert(t2.map_values(|t: TableStateV| t.name) =~= t1.map_values(|t: TableStateV| t.name));
    assert(table_pos(t2, name) == tpos);
    if other != name {
        let q = table_pos(t1, other);
        assert(table_pos(t2, other) == q);
        if q >= 0 {
            crate::index::lemma_first_index_props(t1.map_values(|t: TableStateV| t.name), other);
            assert(t2[q] == t1[q]);
        }
    }
}

} // verus!
