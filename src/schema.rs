use vstd::prelude::*;

use crate::text::{lemma_seq_first_index, seq_first_index, str_eq};
use crate::value::FieldType;

verus! {

/// The declaration of one field of a table.
#[derive(Debug)]
pub struct FieldConfig {
    pub name: String,
    pub field_type: FieldType,
    pub indexed: Option<bool>,
    pub fulltext: Option<bool>,
    pub unique: Option<bool>,
    pub autoincrement: Option<bool>,
}

/// The declaration of one table.
#[derive(Debug)]
pub struct TableConfig {
    pub name: String,
    pub fields: Vec<FieldConfig>,
}

/// The schema: the declared tables, in the order of the document.
#[derive(Debug)]
pub struct DbConfig {
    pub tables: Vec<TableConfig>,
}

/// A field declaration with its flags resolved (absent means `false`).
pub struct FieldV {
    pub name: Seq<char>,
    pub field_type: FieldType,
    pub indexed: bool,
    pub fulltext: bool,
    pub unique: bool,
    pub autoincrement: bool,
}

pub struct TableV {
    pub name: Seq<char>,
    pub fields: Seq<FieldV>,
}

pub open spec fn flag(b: Option<bool>) -> bool {
    match b {
        Some(x) => x,
        None => false,
    }
}

impl View for FieldConfig {
    type V = FieldV;

    open spec fn view(&self) -> FieldV {
        FieldV {
            name: self.name@,
            field_type: self.field_type,
            indexed: flag(self.indexed),
            fulltext: flag(self.fulltext),
            unique: flag(self.unique),
            autoincrement: flag(self.autoincrement),
        }
    }
}

impl View for TableConfig {
    type V = TableV;

    open spec fn view(&self) -> TableV {
        TableV { name: self.name@, fields: self.fields@.map_values(|f: FieldConfig| f@) }
    }
}

impl View for DbConfig {
    type V = Seq<TableV>;

    open spec fn view(&self) -> Seq<TableV> {
        self.tables@.map_values(|t: TableConfig| t@)
    }
}

/// The first declaration of a table of that name.
pub open spec fn table_spec(cfg: Seq<TableV>, name: Seq<char>) -> Option<TableV> {
    let i = seq_first_index(cfg.map_values(|t: TableV| t.name), name);
    if i < 0 { None } else { Some(cfg[i]) }
}

/// The first declaration of a field of that name.
pub open spec fn field_spec(fields: Seq<FieldV>, name: Seq<char>) -> Option<FieldV> {
    let i = seq_first_index(fields.map_values(|f: FieldV| f.name), name);
    if i < 0 { None } else { Some(fields[i]) }
}

/// The declared fields of a table; none for an undeclared table.
pub open spec fn fields_spec(cfg: Seq<TableV>, table: Seq<char>) -> Seq<FieldV> {
    match table_spec(cfg, table) {
        Some(t) => t.fields,
        None => Seq::empty(),
    }
}

/// The declared type of a field; text where the table or field is not declared.
pub open spec fn type_spec(cfg: Seq<TableV>, table: Seq<char>, field: Seq<char>) -> FieldType {
    match field_spec(fields_spec(cfg, table), field) {
        Some(f) => f.field_type,
        None => FieldType::Text,
    }
}

/// The names of the fields of a table that carry the `unique` flag, in order.
pub open spec fn unique_names(fields: Seq<FieldV>) -> Seq<Seq<char>>
    decreases fields.len(),
{
    if fields.len() == 0 {
        Seq::empty()
    } else {
        let rest = unique_names(fields.drop_last());
        if fields.last().unique { rest.push(fields.last().name) } else { rest }
    }
}

/// The names of the fields of a table that carry the `autoincrement` flag, in order.
pub open spec fn autoincrement_names(fields: Seq<FieldV>) -> Seq<Seq<char>>
    decreases fields.len(),
{
    if fields.len() == 0 {
        Seq::empty()
    } else {
        let rest = autoincrement_names(fields.drop_last());
        if fields.last().autoincrement { rest.push(fields.last().name) } else { rest }
    }
}

fn flag_exec(b: Option<bool>) -> (r: bool)
    ensures
        r == flag(b),
{
    match b {
        Some(x) => x,
        None => false,
    }
}

impl DbConfig {
    /// The empty schema.
    pub fn empty() -> (r: DbConfig)
        ensures
            r@ == Seq::<TableV>::empty(),
    {
        let r = DbConfig { tables: Vec::new() };
        assert(r@ =~= Seq::<TableV>::empty());
        r
    }

    /// The first declaration of the named table.
    pub fn find_table(&self, name: &str) -> (r: Option<&TableConfig>)
        ensures
            match r {
                Some(t) => table_spec(self@, name@) == Some(t@),
                None => table_spec(self@, name@) is None,
            },
    {
        let ghost names = self@.map_values(|t: TableV| t.name);
        let mut i: usize = 0;
        while i < self.tables.len()
            invariant
                i <= self.tables@.len(),
                names == self@.map_values(|t: TableV| t.name),
                names.len() == self.tables@.len(),
                forall|k: int| 0 <= k < i ==> names[k] != name@,
            decreases self.tables.len() - i,
        {
            let t = &self.tables[i];
            assert(names[i as int] == t.name@);
            if str_eq(t.name.as_str(), name) {
                proof {
                    lemma_seq_first_index(names, name@, i as int);
                }
                return Some(t);
            }
            i = i + 1;
        }
        proof {
            lemma_seq_first_index(names, name@, names.len() as int);
        }
        None
    }

    /// The declared type of a field; text where the table or field is not declared.
    pub fn field_type(&self, table: &str, field: &str) -> (r: FieldType)
        ensures
            r == type_spec(self@, table@, field@),
    {
        match self.find_table(table) {
            None => FieldType::Text,
            Some(t) => match t.find_field(field) {
                Some(f) => f.field_type,
                None => FieldType::Text,
            },
        }
    }

    /// The names of the table's unique fields.
    pub fn unique_fields(&self, table: &str) -> (r: Vec<String>)
        ensures
            r@.map_values(|s: String| s@) == unique_names(fields_spec(self@, table@)),
    {
        match self.find_table(table) {
            None => {
                let r: Vec<String> = Vec::new();
                assert(r@.map_values(|s: String| s@) =~= Seq::<Seq<char>>::empty());
                r
            },
            Some(t) => t.flagged_names(true),
        }
    }

    /// The names of the table's autoincrement fields.
    pub fn autoincrement_fields(&self, table: &str) -> (r: Vec<String>)
        ensures
            r@.map_values(|s: String| s@) == autoincrement_names(fields_spec(self@, table@)),
    {
        match self.find_table(table) {
            None => {
                let r: Vec<String> = Vec::new();
                assert(r@.map_values(|s: String| s@) =~= Seq::<Seq<char>>::empty());
                r
            },
            Some(t) => t.flagged_names(false),
        }
    }
}

impl TableConfig {
    /// The first declaration of the named field.
    pub fn find_field(&self, name: &str) -> (r: Option<&FieldConfig>)
        ensures
            match r {
                Some(f) => field_spec(self@.fields, name@) == Some(f@),
                None => field_spec(self@.fields, name@) is None,
            },
    {
        let ghost names = self@.fields.map_values(|f: FieldV| f.name);
        let mut i: usize = 0;
        while i < self.fields.len()
            invariant
                i <= self.fields@.len(),
                names == self@.fields.map_values(|f: FieldV| f.name),
                names.len() == self.fields@.len(),
                forall|k: int| 0 <= k < i ==> names[k] != name@,
            decreases self.fields.len() - i,
        {
            let f = &self.fields[i];
            assert(names[i as int] == f.name@);
            if str_eq(f.name.as_str(), name) {
                proof {
                    lemma_seq_first_index(names, name@, i as int);
                }
                return Some(f);
            }
            i = i + 1;
        }
        proof {
            lemma_seq_first_index(names, name@, names.len() as int);
        }
        None
    }

    /// The names of the fields flagged unique (`true`) or autoincrement (`false`).
    fn flagged_names(&self, unique: bool) -> (r: Vec<String>)
        ensures
            r@.map_values(|s: String| s@) == (if unique {
                unique_names(self@.fields)
            } else {
                autoincrement_names(self@.fields)
            }),
    {
        let ghost fs = self@.fields;
        let mut r: Vec<String> = Vec::new();
        let mut i: usize = 0;
        assert(fs.subrange(0, 0) =~= Seq::<FieldV>::empty());
        while i < self.fields.len()
            invariant
                i <= self.fields@.len(),
                fs == self@.fields,
                fs.len() == self.fields@.len(),
                r@.map_values(|s: String| s@) == (if unique {
                    unique_names(fs.subrange(0, i as int))
                } else {
                    autoincrement_names(fs.subrange(0, i as int))
                }),
            decreases self.fields.len() - i,
        {
            let f = &self.fields[i];
            assert(fs.subrange(0, i + 1).drop_last() =~= fs.subrange(0, i as int));
            assert(fs[i as int] == f@);
            let on = if unique { flag_exec(f.unique) } else { flag_exec(f.autoincrement) };
            if on {
                r.push(f.name.clone());
            }
            assert(r@.map_values(|s: String| s@) =~= (if unique {
                unique_names(fs.subrange(0, i + 1))
            } else {
                autoincrement_names(fs.subrange(0, i + 1))
            }));
            i = i + 1;
        }
        assert(fs.subrange(0, i as int) =~= fs);
        r
    }
}


impl Default for DbConfig {
    /// The empty schema.
    fn default() -> (r: DbConfig)
        ensures
            r@ == Seq::<TableV>::empty(),
    {
        DbConfig::empty()
    }
}

} // verus!
