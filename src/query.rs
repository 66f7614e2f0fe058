use vstd::prelude::*;

use crate::text::{assoc_get, lemma_assoc_get_step, str_eq};

verus! {

/// A primitive condition on a field of the primary table.
#[derive(Debug)]
pub enum Condition {
    Eq(String, String),
    Lt(String, String),
    Gt(String, String),
    Contains(String, String),
    In(String, Vec<String>),
    Between(String, String, String),
}

pub enum CondV {
    Eq(Seq<char>, Seq<char>),
    Lt(Seq<char>, Seq<char>),
    Gt(Seq<char>, Seq<char>),
    Contains(Seq<char>, Seq<char>),
    In(Seq<char>, Seq<Seq<char>>),
    Between(Seq<char>, Seq<char>, Seq<char>),
}

pub open spec fn strings_view(v: Seq<String>) -> Seq<Seq<char>> {
    v.map_values(|s: String| s@)
}

impl View for Condition {
    type V = CondV;

    open spec fn view(&self) -> CondV {
        match self {
            Condition::Eq(f, v) => CondV::Eq(f@, v@),
            Condition::Lt(f, v) => CondV::Lt(f@, v@),
            Condition::Gt(f, v) => CondV::Gt(f@, v@),
            Condition::Contains(f, v) => CondV::Contains(f@, v@),
            Condition::In(f, vs) => CondV::In(f@, strings_view(vs@)),
            Condition::Between(f, lo, hi) => CondV::Between(f@, lo@, hi@),
        }
    }
}

/// The kind of statement a query is.
#[derive(Clone, Copy, Debug, PartialEq, Eq, Structural)]
pub enum QueryOp {
    Select,
    Insert,
    Update,
    Delete,
}

/// A query: a declarative plan built fluently and then executed.
#[derive(Debug)]
pub struct Query {
    pub table: String,
    pub fields: Vec<String>,
    pub alias: String,
    pub joins: Vec<(String, String, String, String)>,
    pub where_clauses: Vec<Vec<Condition>>,
    pub values: Vec<Vec<(String, String)>>,
    pub op: QueryOp,
    pub order_by: Option<(String, bool)>,
    pub group_by: Option<String>,
    pub limit: Option<usize>,
    pub offset: Option<usize>,
}

pub struct QueryV {
    pub table: Seq<char>,
    pub fields: Seq<Seq<char>>,
    pub alias: Seq<char>,
    pub joins: Seq<(Seq<char>, Seq<char>, Seq<char>, Seq<char>)>,
    pub where_clauses: Seq<Seq<CondV>>,
    pub values: Seq<Seq<(Seq<char>, Seq<char>)>>,
    pub op: QueryOp,
    pub order_by: Option<(Seq<char>, bool)>,
    pub group_by: Option<Seq<char>>,
    pub limit: Option<usize>,
    pub offset: Option<usize>,
}

pub open spec fn join_view(j: (String, String, String, String)) -> (Seq<char>, Seq<char>, Seq<char>, Seq<char>) {
    (j.0@, j.1@, j.2@, j.3@)
}

pub open spec fn group_view(g: Vec<Condition>) -> Seq<CondV> {
    g@.map_values(|c: Condition| c@)
}

pub open spec fn pairs_view(p: Seq<(String, String)>) -> Seq<(Seq<char>, Seq<char>)> {
    p.map_values(|e: (String, String)| (e.0@, e.1@))
}

pub open spec fn record_view(r: Vec<(String, String)>) -> Seq<(Seq<char>, Seq<char>)> {
    pairs_view(r@)
}

impl View for Query {
    type V = QueryV;

    open spec fn view(&self) -> QueryV {
        QueryV {
            table: self.table@,
            fields: strings_view(self.fields@),
            alias: self.alias@,
            joins: self.joins@.map_values(|j: (String, String, String, String)| join_view(j)),
            where_clauses: self.where_clauses@.map_values(|g: Vec<Condition>| group_view(g)),
            values: self.values@.map_values(|r: Vec<(String, String)>| record_view(r)),
            op: self.op,
            order_by: match self.order_by {
                Some((f, asc)) => Some((f@, asc)),
                None => None,
            },
            group_by: match self.group_by {
                Some(g) => Some(g@),
                None => None,
            },
            limit: self.limit,
            offset: self.offset,
        }
    }
}

/// The conditions after `c` is added to the last group (a first group is
/// opened where there is none).
pub open spec fn add_condition(w: Seq<Seq<CondV>>, c: CondV) -> Seq<Seq<CondV>> {
    if w.len() == 0 {
        seq![seq![c]]
    } else {
        w.update(w.len() - 1, w.last().push(c))
    }
}

pub open spec fn strs_view(v: Seq<&str>) -> Seq<Seq<char>> {
    v.map_values(|s: &str| s@)
}

pub open spec fn str_pairs_view(v: Seq<(&str, &str)>) -> Seq<(Seq<char>, Seq<char>)> {
    v.map_values(|e: (&str, &str)| (e.0@, e.1@))
}

/// Owned copies of a list of texts.
pub fn to_strings(v: &Vec<&str>) -> (r: Vec<String>)
    ensures
        strings_view(r@) == strs_view(v@),
{
    let mut r: Vec<String> = Vec::new();
    let mut i: usize = 0;
    while i < v.len()
        invariant
            i <= v@.len(),
            strings_view(r@) == strs_view(v@.subrange(0, i as int)),
        decreases v.len() - i,
    {
        let ghost before = r@;
        let x: &str = v[i];
        let o: String = x.to_owned();
        r.push(o);
        assert(r@ == before.push(o));
        assert(v@.subrange(0, i + 1) == v@.subrange(0, i as int).push(x));
        assert(strings_view(r@) =~= strings_view(before).push(o@));
        assert(strs_view(v@.subrange(0, i + 1)) =~= strs_view(v@.subrange(0, i as int)).push(x@));
        assert(strings_view(r@) =~= strs_view(v@.subrange(0, i + 1)));
        i = i + 1;
    }
    assert(v@.subrange(0, i as int) =~= v@);
    r
}

/// Owned copies of a list of field/value pairs.
pub fn to_pairs(v: &Vec<(&str, &str)>) -> (r: Vec<(String, String)>)
    ensures
        record_view(r) == str_pairs_view(v@),
{
    let mut r: Vec<(String, String)> = Vec::new();
    let mut i: usize = 0;
    while i < v.len()
        invariant
            i <= v@.len(),
            record_view(r) == str_pairs_view(v@.subrange(0, i as int)),
        decreases v.len() - i,
    {
        let ghost before = r@;
        let (k, x) = v[i];
        let e = (k.to_owned(), x.to_owned());
        r.push(e);
        assert(r@ == before.push(e));
        assert(v@.subrange(0, i + 1) == v@.subrange(0, i as int).push((k, x)));
        assert(record_view(r) =~= pairs_view(before).push((e.0@, e.1@)));
        assert(str_pairs_view(v@.subrange(0, i + 1)) =~= str_pairs_view(v@.subrange(0, i as int)).push((k@, x@)));
        assert(record_view(r) =~= str_pairs_view(v@.subrange(0, i + 1)));
        i = i + 1;
    }
    assert(v@.subrange(0, i as int) =~= v@);
    r
}

/// Values to insert or set: one record or a batch of records.
pub trait IntoValues {
    spec fn records(&self) -> Seq<Seq<(Seq<char>, Seq<char>)>>;

    fn into_values(self) -> (r: Vec<Vec<(String, String)>>)
        ensures
            r@.map_values(|x: Vec<(String, String)>| record_view(x)) == self.records(),
    ;
}

impl<'a> IntoValues for Vec<(&'a str, &'a str)> {
    open spec fn records(&self) -> Seq<Seq<(Seq<char>, Seq<char>)>> {
        seq![str_pairs_view(self@)]
    }

    fn into_values(self) -> (r: Vec<Vec<(String, String)>>)
    {
        let mut r: Vec<Vec<(String, String)>> = Vec::new();
        r.push(to_pairs(&self));
        assert(r@.map_values(|x: Vec<(String, String)>| record_view(x)) =~= self.records());
        r
    }
}

impl<'a> IntoValues for Vec<Vec<(&'a str, &'a str)>> {
    open spec fn records(&self) -> Seq<Seq<(Seq<char>, Seq<char>)>> {
        self@.map_values(|x: Vec<(&str, &str)>| str_pairs_view(x@))
    }

    fn into_values(self) -> (r: Vec<Vec<(String, String)>>)
    {
        let mut r: Vec<Vec<(String, String)>> = Vec::new();
        let mut i: usize = 0;
        while i < self.len()
            invariant
                i <= self@.len(),
                r@.map_values(|x: Vec<(String, String)>| record_view(x))
                    == self@.subrange(0, i as int).map_values(|x: Vec<(&str, &str)>| str_pairs_view(x@)),
            decreases self.len() - i,
        {
            let ghost before = r@;
            let e = to_pairs(&self[i]);
            r.push(e);
            assert(r@ == before.push(e));
            assert(self@.subrange(0, i + 1) == self@.subrange(0, i as int).push(self@[i as int]));
            assert(r@.map_values(|x: Vec<(String, String)>| record_view(x))
                =~= before.map_values(|x: Vec<(String, String)>| record_view(x)).push(record_view(e)));
            assert(self@.subrange(0, i + 1).map_values(|x: Vec<(&str, &str)>| str_pairs_view(x@))
                =~= self@.subrange(0, i as int).map_values(|x: Vec<(&str, &str)>| str_pairs_view(x@)).push(str_pairs_view(self@[i as int]@)));
            assert(r@.map_values(|x: Vec<(String, String)>| record_view(x))
                =~= self@.subrange(0, i + 1).map_values(|x: Vec<(&str, &str)>| str_pairs_view(x@)));
            i = i + 1;
        }
        assert(self@.subrange(0, i as int) =~= self@);
        r
    }
}

impl Query {
    /// A fresh query of the given kind on a table: every field, the table's
    /// own name as its alias, nothing else set.
    pub open spec fn on_spec(op: QueryOp, table: Seq<char>) -> QueryV {
        QueryV {
            table: table,
            fields: seq![seq!['*']],
            alias: table,
            joins: Seq::empty(),
            where_clauses: Seq::empty(),
            values: Seq::empty(),
            op,
            order_by: None,
            group_by: None,
            limit: None,
            offset: None,
        }
    }

    /// A query of the given kind on a table, with every field and the table's
    /// own name as its alias.
    pub fn on(op: QueryOp, table: &str) -> (r: Query)
        ensures
            r@ == Query::on_spec(op, table@),
    {
        let mut fields: Vec<String> = Vec::new();
        fields.push(star());
        let r = Query {
            table: table.to_owned(),
            fields,
            alias: table.to_owned(),
            joins: Vec::new(),
            where_clauses: Vec::new(),
            values: Vec::new(),
            op,
            order_by: None,
            group_by: None,
            limit: None,
            offset: None,
        };
        assert(r@.fields =~= seq![seq!['*']]);
        assert(r@.joins =~= Seq::empty());
        assert(r@.where_clauses =~= Seq::empty());
        assert(r@.values =~= Seq::empty());
        r
    }

    /// Chooses the fields to return: `*`, `field` or `alias.field`.
    pub fn fields(&mut self, fields: Vec<&str>) -> (r: &mut Self)
        ensures
            r@ == (QueryV { fields: strs_view(fields@), ..old(self)@ }),
            *final(self) == *final(r),
    {
        self.fields = to_strings(&fields);
        self
    }

    /// Names the primary table in the query.
    pub fn alias(&mut self, alias: &str) -> (r: &mut Self)
        ensures
            r@ == (QueryV { alias: alias@, ..old(self)@ }),
            *final(self) == *final(r),
    {
        self.alias = alias.to_owned();
        self
    }

    /// Adds an equi-join with `table` (named `alias`) on `on_left = on_right`.
    pub fn join(&mut self, table: &str, alias: &str, on_left: &str, on_right: &str) -> (r: &mut Self)
        ensures
            r@ == (QueryV { joins: old(self)@.joins.push((table@, alias@, on_left@, on_right@)), ..old(self)@ }),
            *final(self) == *final(r),
    {
        self.joins.push((table.to_owned(), alias.to_owned(), on_left.to_owned(), on_right.to_owned()));
        assert(self@.joins =~= old(self)@.joins.push((table@, alias@, on_left@, on_right@)));
        self
    }

    /// Sets the records to insert, or the field values to set.
    pub fn values<V: IntoValues>(&mut self, values: V) -> (r: &mut Self)
        ensures
            r@ == (QueryV { values: values.records(), ..old(self)@ }),
            *final(self) == *final(r),
    {
        self.values = values.into_values();
        self
    }

    fn push_condition(&mut self, c: Condition)
        ensures
            final(self)@ == (QueryV { where_clauses: add_condition(old(self)@.where_clauses, c@), ..old(self)@ }),
    {
        let ghost w = old(self)@.where_clauses;
        let ghost raw = self.where_clauses@;
        let mut group = match self.where_clauses.pop() {
            Some(g) => g,
            None => Vec::new(),
        };
        let ghost g0 = group_view(group);
        proof {
            if raw.len() > 0 {
                assert(g0 == w.last());
                assert(self.where_clauses@ == raw.drop_last());
            } else {
                assert(g0 =~= Seq::<CondV>::empty());
            }
        }
        group.push(c);
        assert(group_view(group) =~= g0.push(c@));
        let ghost mid = self.where_clauses@;
        self.where_clauses.push(group);
        assert(self.where_clauses@ == mid.push(group));
        assert(self@.where_clauses =~= add_condition(w, c@));
    }

    /// Adds `field = value` to the last group of conditions.
    pub fn where_eq(&mut self, field: &str, value: &str) -> (r: &mut Self)
        ensures
            r@ == (QueryV { where_clauses: add_condition(old(self)@.where_clauses, CondV::Eq(field@, value@)), ..old(self)@ }),
            *final(self) == *final(r),
    {
        self.push_condition(Condition::Eq(field.to_owned(), value.to_owned()));
        self
    }

    /// Adds `field < value` to the last group of conditions.
    pub fn where_lt(&mut self, field: &str, value: &str) -> (r: &mut Self)
        ensures
            r@ == (QueryV { where_clauses: add_condition(old(self)@.where_clauses, CondV::Lt(field@, value@)), ..old(self)@ }),
            *final(self) == *final(r),
    {
        self.push_condition(Condition::Lt(field.to_owned(), value.to_owned()));
        self
    }

    /// Adds `field > value` to the last group of conditions.
    pub fn where_gt(&mut self, field: &str, value: &str) -> (r: &mut Self)
        ensures
            r@ == (QueryV { where_clauses: add_condition(old(self)@.where_clauses, CondV::Gt(field@, value@)), ..old(self)@ }),
            *final(self) == *final(r),
    {
        self.push_condition(Condition::Gt(field.to_owned(), value.to_owned()));
        self
    }

    /// Adds `field contains value` to the last group of conditions.
    pub fn where_contains(&mut self, field: &str, value: &str) -> (r: &mut Self)
        ensures
            r@ == (QueryV { where_clauses: add_condition(old(self)@.where_clauses, CondV::Contains(field@, value@)), ..old(self)@ }),
            *final(self) == *final(r),
    {
        self.push_condition(Condition::Contains(field.to_owned(), value.to_owned()));
        self
    }

    /// Adds `field in values` to the last group of conditions.
    pub fn where_in(&mut self, field: &str, values: Vec<&str>) -> (r: &mut Self)
        ensures
            r@ == (QueryV { where_clauses: add_condition(old(self)@.where_clauses, CondV::In(field@, strs_view(values@))), ..old(self)@ }),
            *final(self) == *final(r),
    {
        self.push_condition(Condition::In(field.to_owned(), to_strings(&values)));
        self
    }

    /// Adds `min <= field <= max` to the last group of conditions.
    pub fn where_between(&mut self, field: &str, min: &str, max: &str) -> (r: &mut Self)
        ensures
            r@ == (QueryV { where_clauses: add_condition(old(self)@.where_clauses, CondV::Between(field@, min@, max@)), ..old(self)@ }),
            *final(self) == *final(r),
    {
        self.push_condition(Condition::Between(field.to_owned(), min.to_owned(), max.to_owned()));
        self
    }

    /// Orders the result by a field (`field` or `alias.field`), ascending or not.
    pub fn order_by(&mut self, field: &str, ascending: bool) -> (r: &mut Self)
        ensures
            r@ == (QueryV { order_by: Some((field@, ascending)), ..old(self)@ }),
            *final(self) == *final(r),
    {
        self.order_by = Some((field.to_owned(), ascending));
        self
    }

    /// Records a grouping field.
    pub fn group_by(&mut self, field: &str) -> (r: &mut Self)
        ensures
            r@ == (QueryV { group_by: Some(field@), ..old(self)@ }),
            *final(self) == *final(r),
    {
        self.group_by = Some(field.to_owned());
        self
    }

    /// Keeps at most `count` rows of the result.
    pub fn limit(&mut self, count: usize) -> (r: &mut Self)
        ensures
            r@ == (QueryV { limit: Some(count), ..old(self)@ }),
            *final(self) == *final(r),
    {
        self.limit = Some(count);
        self
    }

    /// Skips the first `start` rows of the result.
    pub fn offset(&mut self, start: usize) -> (r: &mut Self)
        ensures
            r@ == (QueryV { offset: Some(start), ..old(self)@ }),
            *final(self) == *final(r),
    {
        self.offset = Some(start);
        self
    }
}

fn star() -> (r: String)
    ensures
        r@ == seq!['*'],
{
    let mut v: Vec<char> = Vec::new();
    v.push('*');
    assert(v@ =~= seq!['*']);
    crate::text::string_of(&v)
}

impl Default for Query {
    /// A select with every field, on no table yet.
    fn default() -> (r: Query)
        ensures
            r@.table.len() == 0,
            r@.alias.len() == 0,
            r@.op == QueryOp::Select,
            r@.fields == seq![seq!['*']],
            r@.joins.len() == 0,
            r@.where_clauses.len() == 0,
            r@.values.len() == 0,
            r@.order_by is None,
            r@.group_by is None,
            r@.limit is None,
            r@.offset is None,
    {
        let mut fields: Vec<String> = Vec::new();
        fields.push(star());
        let r = Query {
            table: String::new(),
            fields,
            alias: String::new(),
            joins: Vec::new(),
            where_clauses: Vec::new(),
            values: Vec::new(),
            op: QueryOp::Select,
            order_by: None,
            group_by: None,
            limit: None,
            offset: None,
        };
        assert(r@.fields =~= seq![seq!['*']]);
        r
    }
}


/// What an association list of texts holds under `k`, as `assoc_get` states.
pub fn assoc_find<'a>(s: &'a Vec<(String, String)>, k: &str) -> (r: Option<&'a String>)
    ensures
        match r {
            Some(v) => assoc_get(record_view(*s), k@) == Some(v@),
            None => assoc_get(record_view(*s), k@) is None,
        },
{
    let ghost d = record_view(*s);
    let mut found: Option<&String> = None;
    let mut i: usize = 0;
    assert(d.subrange(0, 0) =~= Seq::<(Seq<char>, Seq<char>)>::empty());
    while i < s.len()
        invariant
            i <= s@.len(),
            d == record_view(*s),
            match found {
                Some(v) => assoc_get(d.subrange(0, i as int), k@) == Some(v@),
                None => assoc_get(d.subrange(0, i as int), k@) is None,
            },
        decreases s.len() - i,
    {
        proof {
            lemma_assoc_get_step(d, k@, i as int);
        }
        let e = &s[i];
        assert(d[i as int] == (e.0@, e.1@));
        if str_eq(e.0.as_str(), k) {
            found = Some(&e.1);
        }
        i = i + 1;
    }
    assert(d.subrange(0, i as int) =~= d);
    found
}


} // verus!
