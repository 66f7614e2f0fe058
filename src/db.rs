use vstd::prelude::*;

use crate::query::{Query, QueryOp};
use crate::row::{Row, RowV, data_wf};
use crate::schema::{DbConfig, TableV};
use crate::text::{lemma_seq_first_index, seq_first_index, str_eq};
use crate::index::{FieldIndex, IndexV, index_set, indexes_view};

verus! {

/// The failures of the engine.
#[derive(Debug)]
pub enum DbError {
    TableNotFound(String),
    DuplicateValue(String, String),
    InvalidValue(String, String),
    IoError(String),
    SerializationError(String),
    ConfigError(String),
    Generic(String),
}

pub enum ErrV {
    TableNotFound(Seq<char>),
    DuplicateValue(Seq<char>, Seq<char>),
    InvalidValue(Seq<char>, Seq<char>),
    IoError(Seq<char>),
    SerializationError(Seq<char>),
    ConfigError(Seq<char>),
    Generic(Seq<char>),
}

impl View for DbError {
    type V = ErrV;

    open spec fn view(&self) -> ErrV {
        match self {
            DbError::TableNotFound(s) => ErrV::TableNotFound(s@),
            DbError::DuplicateValue(f, v) => ErrV::DuplicateValue(f@, v@),
            DbError::InvalidValue(f, v) => ErrV::InvalidValue(f@, v@),
            DbError::IoError(s) => ErrV::IoError(s@),
            DbError::SerializationError(s) => ErrV::SerializationError(s@),
            DbError::ConfigError(s) => ErrV::ConfigError(s@),
            DbError::Generic(s) => ErrV::Generic(s@),
        }
    }
}

/// One table: its name and its rows.
#[derive(Debug)]
pub struct Table {
    pub name: String,
    pub rows: Vec<Row>,
}

pub struct TableStateV {
    pub name: Seq<char>,
    pub rows: Seq<RowV>,
}

pub open spec fn rows_view(rows: Seq<Row>) -> Seq<RowV> {
    rows.map_values(|r: Row| r@)
}

impl View for Table {
    type V = TableStateV;

    open spec fn view(&self) -> TableStateV {
        TableStateV { name: self.name@, rows: rows_view(self.rows@) }
    }
}

pub open spec fn tables_view(ts: Seq<Table>) -> Seq<TableStateV> {
    ts.map_values(|t: Table| t@)
}

/// The position of the first table of that name, or -1.
pub open spec fn table_pos(ts: Seq<TableStateV>, name: Seq<char>) -> int {
    seq_first_index(ts.map_values(|t: TableStateV| t.name), name)
}

/// The rows of the named table, if there is one.
pub open spec fn table_rows(ts: Seq<TableStateV>, name: Seq<char>) -> Option<Seq<RowV>> {
    let i = table_pos(ts, name);
    if i < 0 { None } else { Some(ts[i].rows) }
}

pub open spec fn rows_wf(rows: Seq<RowV>) -> bool {
    forall|i: int| 0 <= i < rows.len() ==> data_wf(#[trigger] rows[i].data)
}

/// No two rows of a table share an id.
pub open spec fn ids_unique(rows: Seq<RowV>) -> bool {
    forall|i: int, j: int| 0 <= i < j < rows.len() ==> #[trigger] rows[i].id != #[trigger] rows[j].id
}

/// No row holds two fields of one name.
pub open spec fn rows_keys_unique(rows: Seq<RowV>) -> bool {
    forall|j: int| 0 <= j < rows.len() ==> crate::row::keys_unique(#[trigger] rows[j].data)
}

/// No two tables share a name.
pub open spec fn names_unique(ts: Seq<TableStateV>) -> bool {
    forall|i: int, j: int| 0 <= i < j < ts.len() ==> #[trigger] ts[i].name != #[trigger] ts[j].name
}

pub open spec fn tables_wf(ts: Seq<TableStateV>) -> bool {
    &&& forall|i: int| 0 <= i < ts.len() ==> rows_wf(#[trigger] ts[i].rows) && ids_unique(ts[i].rows) && rows_keys_unique(ts[i].rows)
    &&& names_unique(ts)
}

/// The in-memory engine: tables, the live schema, the autoincrement
/// counters, and the secondary and full-text indexes the schema calls for.
#[derive(Debug)]
pub struct Database {
    pub(crate) tables: Vec<Table>,
    pub(crate) config: DbConfig,
    pub(crate) counters: Vec<(String, String, i64)>,
    pub(crate) indexes: Vec<FieldIndex>,
}

pub struct DbV {
    pub tables: Seq<TableStateV>,
    pub config: Seq<TableV>,
    pub counters: Seq<(Seq<char>, Seq<char>, int)>,
    pub indexes: Seq<IndexV>,
}

impl View for Database {
    type V = DbV;

    open(crate) spec fn view(&self) -> DbV {
        DbV {
            tables: tables_view(self.tables@),
            config: self.config@,
            counters: self.counters@.map_values(|c: (String, String, i64)| (c.0@, c.1@, c.2 as int)),
            indexes: indexes_view(self.indexes@),
        }
    }
}

impl Database {
    /// Every stored value is well formed, and the indexes are those the
    /// schema calls for, built over the current tables.
    pub open spec fn wf(&self) -> bool {
        &&& tables_wf(self@.tables)
        &&& self@.indexes == index_set(self@.config, self@.tables)
    }

    /// An engine with no tables, under the given schema.
    pub fn new(config: DbConfig) -> (r: Database)
        ensures
            r.wf(),
            r@.tables.len() == 0,
            r@.config == config@,
            r@.counters.len() == 0,
    {
        let mut r = Database { tables: Vec::new(), config, counters: Vec::new(), indexes: Vec::new() };
        assert(r@.tables =~= Seq::<TableStateV>::empty());
        assert(r@.counters =~= Seq::<(Seq<char>, Seq<char>, int)>::empty());
        r.rebuild_indexes();
        r
    }

    /// The tables.
    pub fn tables(&self) -> (r: &Vec<Table>)
        ensures
            tables_view(r@) == self@.tables,
    {
        &self.tables
    }

    /// The live schema.
    pub fn config(&self) -> (r: &DbConfig)
        ensures
            r@ == self@.config,
    {
        &self.config
    }

    /// A select query on a table.
    pub fn select(&self, table: &str) -> (r: Query)
        ensures
            r@ == Query::on_spec(QueryOp::Select, table@),
    {
        Query::on(QueryOp::Select, table)
    }

    /// An insert query on a table.
    pub fn insert(&self, table: &str) -> (r: Query)
        ensures
            r@ == Query::on_spec(QueryOp::Insert, table@),
    {
        Query::on(QueryOp::Insert, table)
    }

    /// An update query on a table.
    pub fn update(&self, table: &str) -> (r: Query)
        ensures
            r@ == Query::on_spec(QueryOp::Update, table@),
    {
        Query::on(QueryOp::Update, table)
    }

    /// A delete query on a table.
    pub fn delete(&self, table: &str) -> (r: Query)
        ensures
            r@ == Query::on_spec(QueryOp::Delete, table@),
    {
        Query::on(QueryOp::Delete, table)
    }

    /// The position of the named table.
    pub fn find_table(&self, name: &str) -> (r: Option<usize>)
        ensures
            match r {
                Some(i) => table_pos(self@.tables, name@) == i as int && i < self@.tables.len(),
                None => table_pos(self@.tables, name@) == -1,
            },
    {
        let ghost names = self@.tables.map_values(|t: TableStateV| t.name);
        let mut i: usize = 0;
        while i < self.tables.len()
            invariant
                i <= self.tables@.len(),
                names == self@.tables.map_values(|t: TableStateV| t.name),
                names.len() == self.tables@.len(),
                forall|k: int| 0 <= k < i ==> names[k] != name@,
            decreases self.tables.len() - i,
        {
            assert(names[i as int] == self.tables@[i as int].name@);
            if str_eq(self.tables[i].name.as_str(), name) {
                proof {
                    lemma_seq_first_index(names, name@, i as int);
                }
                return Some(i);
            }
            i = i + 1;
        }
        proof {
            lemma_seq_first_index(names, name@, names.len() as int);
        }
        None
    }
}

} // verus!
