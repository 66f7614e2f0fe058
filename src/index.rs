use vstd::prelude::*;

use crate::db::{Database, TableStateV, rows_view, table_pos, table_rows};
use crate::query::strings_view;
use crate::schema::FieldConfig;
use crate::text::{chars_of, contains_chars, has_substring};
use crate::row::{Row, RowV, row_get};
use crate::schema::{FieldV, TableV};
use crate::select::text_of;
use crate::text::{lemma_seq_first_index, lemma_seq_first_index_hit, lower_of, lowercase, seq_first_index, split_words, str_eq, words_of};
use crate::value::value_text;

verus! {

/// An index over one field of one table: each key with the ids of the rows
/// that carry it, in row order. A secondary index keys rows by the canonical
/// text of the field; a full-text index by each lowercased word of it.
#[derive(Debug)]
pub struct FieldIndex {
    pub table: String,
    pub field: String,
    pub fulltext: bool,
    pub entries: Vec<(String, Vec<i32>)>,
}

pub type EntriesV = Seq<(Seq<char>, Seq<int>)>;

pub struct IndexV {
    pub table: Seq<char>,
    pub field: Seq<char>,
    pub fulltext: bool,
    pub entries: EntriesV,
}

pub open spec fn ids_view(v: Seq<i32>) -> Seq<int> {
    v.map_values(|i: i32| i as int)
}

pub open spec fn entries_view(e: Seq<(String, Vec<i32>)>) -> EntriesV {
    e.map_values(|x: (String, Vec<i32>)| (x.0@, ids_view(x.1@)))
}

impl View for FieldIndex {
    type V = IndexV;

    open spec fn view(&self) -> IndexV {
        IndexV { table: self.table@, field: self.field@, fulltext: self.fulltext, entries: entries_view(self.entries@) }
    }
}

pub open spec fn keys_of(e: EntriesV) -> Seq<Seq<char>> {
    e.map_values(|x: (Seq<char>, Seq<int>)| x.0)
}

/// The entries with `id` added under `k`: appended to its list, or a new
/// entry at the end.
pub open spec fn index_add(e: EntriesV, k: Seq<char>, id: int) -> EntriesV {
    let j = seq_first_index(keys_of(e), k);
    if j < 0 { e.push((k, seq![id])) } else { e.update(j, (k, e[j].1.push(id))) }
}

/// Adds `id` under each key, in order.
pub open spec fn index_add_all(e: EntriesV, ks: Seq<Seq<char>>, id: int) -> EntriesV
    decreases ks.len(),
{
    if ks.len() == 0 { e } else { index_add(index_add_all(e, ks.drop_last(), id), ks.last(), id) }
}

/// The keys a row carries in an index.
pub open spec fn row_keys(r: RowV, f: Seq<char>, fulltext: bool) -> Seq<Seq<char>> {
    match row_get(r, f) {
        Some(x) => if fulltext {
            words_of(value_text(x)).map_values(|w: Seq<char>| lower_of(w))
        } else {
            seq![value_text(x)]
        },
        None => Seq::empty(),
    }
}

/// The index of a field built over the rows, in row order.
pub open spec fn build_index(rows: Seq<RowV>, f: Seq<char>, fulltext: bool) -> EntriesV
    decreases rows.len(),
{
    if rows.len() == 0 {
        Seq::empty()
    } else {
        index_add_all(build_index(rows.drop_last(), f, fulltext), row_keys(rows.last(), f, fulltext), rows.last().id)
    }
}

/// The indexes that a table's declared fields call for, in declaration order.
pub open spec fn table_indexes(name: Seq<char>, fields: Seq<FieldV>, rows: Seq<RowV>) -> Seq<IndexV>
    decreases fields.len(),
{
    if fields.len() == 0 {
        Seq::empty()
    } else {
        let rest = table_indexes(name, fields.drop_last(), rows);
        let f = fields.last();
        let a = if f.indexed { rest.push(IndexV { table: name, field: f.name, fulltext: false, entries: build_index(rows, f.name, false) }) } else { rest };
        if f.fulltext { a.push(IndexV { table: name, field: f.name, fulltext: true, entries: build_index(rows, f.name, true) }) } else { a }
    }
}

pub open spec fn rows_or_empty(tables: Seq<TableStateV>, name: Seq<char>) -> Seq<RowV> {
    match table_rows(tables, name) {
        Some(r) => r,
        None => Seq::empty(),
    }
}

/// Every index the schema calls for, built over the current tables.
pub open spec fn index_set(cfg: Seq<TableV>, tables: Seq<TableStateV>) -> Seq<IndexV>
    decreases cfg.len(),
{
    if cfg.len() == 0 {
        Seq::empty()
    } else {
        let t = cfg.last();
        index_set(cfg.drop_last(), tables) + table_indexes(t.name, t.fields, rows_or_empty(tables, t.name))
    }
}

/// The ids listed under `k`, none where `k` is not a key.
pub open spec fn entry_ids(e: EntriesV, k: Seq<char>) -> Seq<int> {
    let j = seq_first_index(keys_of(e), k);
    if j < 0 { Seq::empty() } else { e[j].1 }
}

proof fn lemma_index_add_ids(e: EntriesV, k: Seq<char>, id: int, q: Seq<char>)
    ensures
        entry_ids(index_add(e, k, id), q) == (if q == k { entry_ids(e, q).push(id) } else { entry_ids(e, q) }),
{
    let ks = keys_of(e);
    let j = seq_first_index(ks, k);
    let n = index_add(e, k, id);
    let nks = keys_of(n);
    if j < 0 {
        assert(nks =~= ks.push(k));
        let p = seq_first_index(ks, q);
        if p >= 0 {
            lemma_first_index_props(ks, q);
            assert forall|m: int| 0 <= m < p implies nks[m] != q by {
                assert(nks[m] == ks[m]);
            }
            lemma_seq_first_index(nks, q, p);
            assert(n[p] == e[p]);
        } else {
            lemma_first_index_absent(ks, q);
            if q == k {
                lemma_seq_first_index(nks, q, ks.len() as int);
                assert(entry_ids(e, q) =~= Seq::<int>::empty());
                assert(Seq::<int>::empty().push(id) =~= seq![id]);
            } else {
                assert forall|m: int| 0 <= m < nks.len() implies nks[m] != q by {
                    if m < ks.len() {
                        assert(nks[m] == ks[m]);
                    }
                }
                lemma_seq_first_index(nks, q, nks.len() as int);
            }
        }
    } else {
        lemma_first_index_props(ks, k);
        assert(nks =~= ks);
        if q == k {
        } else {
            let p = seq_first_index(ks, q);
            if p >= 0 {
                lemma_first_index_props(ks, q);
                assert(p != j);
                assert(n[p] == e[p]);
            }
        }
    }
}

pub proof fn lemma_first_index_props<A>(s: Seq<A>, x: A)
    requires
        seq_first_index(s, x) >= 0,
    ensures
        seq_first_index(s, x) < s.len(),
        s[seq_first_index(s, x)] == x,
        forall|m: int| 0 <= m < seq_first_index(s, x) ==> s[m] != x,
    decreases s.len(),
{
    if s.len() > 0 && s[0] != x {
        lemma_first_index_props(s.drop_first(), x);
        assert forall|m: int| 0 <= m < seq_first_index(s, x) implies s[m] != x by {
            if m > 0 {
                assert(s[m] == s.drop_first()[m - 1]);
            }
        }
    }
}

pub proof fn lemma_first_index_absent<A>(s: Seq<A>, x: A)
    requires
        seq_first_index(s, x) < 0,
    ensures
        forall|m: int| 0 <= m < s.len() ==> s[m] != x,
{
    assert forall|m: int| 0 <= m < s.len() implies s[m] != x by {
        if s[m] == x {
            lemma_seq_first_index_hit(s, x, m);
        }
    }
}

/// The count of `k` among the keys.
pub open spec fn key_count(ks: Seq<Seq<char>>, k: Seq<char>) -> nat
    decreases ks.len(),
{
    if ks.len() == 0 { 0 } else { key_count(ks.drop_last(), k) + if ks.last() == k { 1nat } else { 0nat } }
}

/// The ids of the rows carrying `k`, once for each time they carry it, in row order.
pub open spec fn carriers(rows: Seq<RowV>, f: Seq<char>, fulltext: bool, k: Seq<char>) -> Seq<int>
    decreases rows.len(),
{
    if rows.len() == 0 {
        Seq::empty()
    } else {
        carriers(rows.drop_last(), f, fulltext, k) + Seq::new(key_count(row_keys(rows.last(), f, fulltext), k), |i: int| rows.last().id)
    }
}

proof fn lemma_add_all_ids(e: EntriesV, ks: Seq<Seq<char>>, id: int, q: Seq<char>)
    ensures
        entry_ids(index_add_all(e, ks, id), q) == entry_ids(e, q) + Seq::new(key_count(ks, q), |i: int| id),
    decreases ks.len(),
{
    if ks.len() == 0 {
        assert(entry_ids(e, q) + Seq::new(0, |i: int| id) =~= entry_ids(e, q));
    } else {
        lemma_add_all_ids(e, ks.drop_last(), id, q);
        lemma_index_add_ids(index_add_all(e, ks.drop_last(), id), ks.last(), id, q);
        let c = key_count(ks.drop_last(), q);
        if ks.last() == q {
            assert(Seq::new(c, |i: int| id).push(id) =~= Seq::new(c + 1, |i: int| id));
            assert((entry_ids(e, q) + Seq::new(c, |i: int| id)).push(id) =~= entry_ids(e, q) + Seq::new(c + 1, |i: int| id));
        }
    }
}

/// A built index lists under each key exactly the rows that carry it, in
/// row order: what a lookup returns is what a scan of the rows would find.
pub proof fn lemma_index_exact(rows: Seq<RowV>, f: Seq<char>, fulltext: bool, k: Seq<char>)
    ensures
        entry_ids(build_index(rows, f, fulltext), k) == carriers(rows, f, fulltext, k),
    decreases rows.len(),
{
    if rows.len() == 0 {
        let e = build_index(rows, f, fulltext);
        lemma_first_index_absent_empty(keys_of(e), k);
    } else {
        lemma_index_exact(rows.drop_last(), f, fulltext, k);
        lemma_add_all_ids(build_index(rows.drop_last(), f, fulltext), row_keys(rows.last(), f, fulltext), rows.last().id, k);
    }
}

proof fn lemma_first_index_absent_empty(s: Seq<Seq<char>>, x: Seq<char>)
    requires
        s.len() == 0,
    ensures
        seq_first_index(s, x) == -1,
{
}

/// For a secondary index the carriers of a key are the rows whose field has
/// that canonical text, each once.
pub proof fn lemma_secondary_carriers(rows: Seq<RowV>, f: Seq<char>, k: Seq<char>)
    ensures
        carriers(rows, f, false, k).to_set() == Set::new(|id: int| exists|i: int| 0 <= i < rows.len() && rows[i].id == id && text_of(row_get(rows[i], f)) == Some(k)),
    decreases rows.len(),
{
    let s = Set::new(|id: int| exists|i: int| 0 <= i < rows.len() && rows[i].id == id && text_of(row_get(rows[i], f)) == Some(k));
    if rows.len() == 0 {
        assert(carriers(rows, f, false, k) =~= Seq::<int>::empty());
        assert(s =~= Set::<int>::empty());
    } else {
        let init = rows.drop_last();
        let r = rows.last();
        lemma_secondary_carriers(init, f, k);
        let s0 = Set::new(|id: int| exists|i: int| 0 <= i < init.len() && init[i].id == id && text_of(row_get(init[i], f)) == Some(k));
        let ks = row_keys(r, f, false);
        let c = key_count(ks, k);
        let hit = text_of(row_get(r, f)) == Some(k);
        assert(c == (if hit { 1nat } else { 0nat })) by {
            match row_get(r, f) {
                Some(x) => {
                    assert(ks =~= seq![value_text(x)]);
                    assert(ks.drop_last() =~= Seq::<Seq<char>>::empty());
                    assert(key_count(ks.drop_last(), k) == 0);
                    assert(ks.last() == value_text(x));
                    assert(key_count(ks, k) == key_count(ks.drop_last(), k) + if ks.last() == k { 1nat } else { 0nat });
                },
                None => {
                    assert(ks =~= Seq::<Seq<char>>::empty());
                },
            }
        }
        let tail = Seq::new(c, |i: int| r.id);
        let all = carriers(init, f, false, k) + tail;
        assert(all.to_set() =~= s) by {
            assert forall|id: int| all.to_set().contains(id) <==> s.contains(id) by {
                if all.to_set().contains(id) {
                    let m = choose|m: int| 0 <= m < all.len() && all[m] == id;
                    if m < carriers(init, f, false, k).len() {
                        assert(carriers(init, f, false, k).to_set().contains(id));
                        assert(s0.contains(id));
                        let i = choose|i: int| 0 <= i < init.len() && init[i].id == id && text_of(row_get(init[i], f)) == Some(k);
                        assert(rows[i] == init[i]);
                    } else {
                        assert(rows[rows.len() - 1] == r);
                    }
                }
                if s.contains(id) {
                    let i = choose|i: int| 0 <= i < rows.len() && rows[i].id == id && text_of(row_get(rows[i], f)) == Some(k);
                    if i < init.len() {
                        assert(init[i] == rows[i]);
                        assert(s0.contains(id));
                        assert(carriers(init, f, false, k).to_set().contains(id));
                        let m = choose|m: int| 0 <= m < carriers(init, f, false, k).len() && carriers(init, f, false, k)[m] == id;
                        assert(all[m] == id);
                    } else {
                        assert(all[carriers(init, f, false, k).len() as int] == id);
                    }
                }
            }
        }
    }
}


/// Adds `id` under `k`, as `index_add` states.
fn index_add_exec(e: &mut Vec<(String, Vec<i32>)>, k: String, id: i32)
    ensures
        entries_view(final(e)@) == index_add(entries_view(old(e)@), k@, id as int),
{
    let ghost ev = entries_view(e@);
    let ghost ks = keys_of(ev);
    let mut j: usize = 0;
    while j < e.len()
        invariant
            j <= e@.len(),
            ev == entries_view(e@),
            ev == entries_view(old(e)@),
            ks == keys_of(ev),
            ks.len() == e@.len(),
            forall|m: int| 0 <= m < j ==> ks[m] != k@,
        decreases e.len() - j,
    {
        assert(ks[j as int] == e@[j as int].0@);
        if str_eq(e[j].0.as_str(), k.as_str()) {
            proof {
                lemma_seq_first_index(ks, k@, j as int);
            }
            let ghost before = e@[j as int].1@;
            e[j].1.push(id);
            assert(ids_view(e@[j as int].1@) =~= ids_view(before).push(id as int));
            assert(entries_view(e@) =~= ev.update(j as int, (k@, ev[j as int].1.push(id as int))));
            return;
        }
        j = j + 1;
    }
    proof {
        lemma_seq_first_index(ks, k@, ks.len() as int);
    }
    let ghost kv = k@;
    let mut ids: Vec<i32> = Vec::new();
    ids.push(id);
    assert(ids_view(ids@) =~= seq![id as int]);
    let ghost before = e@;
    let ent = (k, ids);
    e.push(ent);
    assert(e@ == before.push(ent));
    assert(entries_view(e@) =~= ev.push((kv, seq![id as int])));
}

/// The keys a row carries in an index, as `row_keys` states.
fn row_keys_exec(r: &Row, f: &str, fulltext: bool) -> (ks: Vec<String>)
    ensures
        strings_view(ks@) == row_keys(r@, f@, fulltext),
{
    let mut ks: Vec<String> = Vec::new();
    match r.get(f) {
        None => {
            assert(strings_view(ks@) =~= Seq::<Seq<char>>::empty());
        },
        Some(x) => {
            let t = x.text();
            if fulltext {
                let words = split_words(t.as_str());
                let ghost ws = words_of(t@);
                let mut i: usize = 0;
                while i < words.len()
                    invariant
                        i <= words@.len(),
                        ws == words_of(t@),
                        words@.len() == ws.len(),
                        forall|m: int| 0 <= m < words@.len() ==> #[trigger] words@[m]@ == ws[m],
                        strings_view(ks@) == ws.subrange(0, i as int).map_values(|w: Seq<char>| lower_of(w)),
                    decreases words.len() - i,
                {
                    let l = lowercase(words[i].as_str());
                    let ghost before = ks@;
                    ks.push(l);
                    assert(ks@ == before.push(l));
                    assert(ws.subrange(0, i + 1) == ws.subrange(0, i as int).push(ws[i as int]));
                    assert(strings_view(ks@) =~= strings_view(before).push(l@));
                    assert(strings_view(ks@) =~= ws.subrange(0, i + 1).map_values(|w: Seq<char>| lower_of(w)));
                    i = i + 1;
                }
                assert(ws.subrange(0, i as int) =~= ws);
            } else {
                let ghost tv = t@;
                ks.push(t);
                assert(strings_view(ks@) =~= seq![tv]);
            }
        },
    }
    ks
}

/// The index of a field built over the rows, as `build_index` states.
fn build_index_exec(rows: &Vec<Row>, f: &str, fulltext: bool) -> (e: Vec<(String, Vec<i32>)>)
    ensures
        entries_view(e@) == build_index(rows_view(rows@), f@, fulltext),
{
    let ghost rv = rows_view(rows@);
    let mut e: Vec<(String, Vec<i32>)> = Vec::new();
    let mut i: usize = 0;
    assert(entries_view(e@) =~= Seq::<(Seq<char>, Seq<int>)>::empty());
    assert(rv.subrange(0, 0) =~= Seq::<RowV>::empty());
    while i < rows.len()
        invariant
            i <= rows@.len(),
            rv == rows_view(rows@),
            entries_view(e@) == build_index(rv.subrange(0, i as int), f@, fulltext),
        decreases rows.len() - i,
    {
        assert(rv.subrange(0, i + 1).drop_last() =~= rv.subrange(0, i as int));
        assert(rv.subrange(0, i + 1).last() == rows@[i as int]@);
        let ks = row_keys_exec(&rows[i], f, fulltext);
        let ghost start = entries_view(e@);
        let ghost ksv = strings_view(ks@);
        let id = rows[i].id;
        let mut j: usize = 0;
        assert(ksv.subrange(0, 0) =~= Seq::<Seq<char>>::empty());
        while j < ks.len()
            invariant
                j <= ks@.len(),
                ksv == strings_view(ks@),
                entries_view(e@) == index_add_all(start, ksv.subrange(0, j as int), id as int),
            decreases ks.len() - j,
        {
            assert(ksv.subrange(0, j + 1).drop_last() =~= ksv.subrange(0, j as int));
            assert(ksv.subrange(0, j + 1).last() == ks@[j as int]@);
            index_add_exec(&mut e, ks[j].clone(), id);
            j = j + 1;
        }
        assert(ksv.subrange(0, j as int) =~= ksv);
        i = i + 1;
    }
    assert(rv.subrange(0, i as int) =~= rv);
    e
}

pub open spec fn indexes_view(v: Seq<FieldIndex>) -> Seq<IndexV> {
    v.map_values(|x: FieldIndex| x@)
}

/// The indexes a table's declared fields call for, as `table_indexes` states.
fn table_indexes_exec(name: &String, fields: &Vec<FieldConfig>, rows: &Vec<Row>, out: &mut Vec<FieldIndex>)
    ensures
        indexes_view(final(out)@) == indexes_view(old(out)@) + table_indexes(name@, fields@.map_values(|f: FieldConfig| f@), rows_view(rows@)),
{
    let ghost fv = fields@.map_values(|f: FieldConfig| f@);
    let ghost base = indexes_view(out@);
    let mut i: usize = 0;
    assert(fv.subrange(0, 0) =~= Seq::<FieldV>::empty());
    assert(base + Seq::<IndexV>::empty() =~= base);
    while i < fields.len()
        invariant
            i <= fields@.len(),
            fv == fields@.map_values(|f: FieldConfig| f@),
            base == indexes_view(old(out)@),
            indexes_view(out@) == base + table_indexes(name@, fv.subrange(0, i as int), rows_view(rows@)),
        decreases fields.len() - i,
    {
        assert(fv.subrange(0, i + 1).drop_last() =~= fv.subrange(0, i as int));
        assert(fv.subrange(0, i + 1).last() == fields@[i as int]@);
        let fc = &fields[i];
        let ghost rest = table_indexes(name@, fv.subrange(0, i as int), rows_view(rows@));
        let indexed = match fc.indexed { Some(b) => b, None => false };
        let fulltext = match fc.fulltext { Some(b) => b, None => false };
        if indexed {
            let ix = FieldIndex { table: name.clone(), field: fc.name.clone(), fulltext: false, entries: build_index_exec(rows, fc.name.as_str(), false) };
            let ghost before = out@;
            out.push(ix);
            assert(out@ == before.push(ix));
            assert(indexes_view(out@) =~= indexes_view(before).push(ix@));
        }
        let ghost mid = indexes_view(out@);
        if fulltext {
            let ix = FieldIndex { table: name.clone(), field: fc.name.clone(), fulltext: true, entries: build_index_exec(rows, fc.name.as_str(), true) };
            let ghost before = out@;
            out.push(ix);
            assert(out@ == before.push(ix));
            assert(indexes_view(out@) =~= indexes_view(before).push(ix@));
        }
        assert(indexes_view(out@) =~= base + table_indexes(name@, fv.subrange(0, i + 1), rows_view(rows@)));
        i = i + 1;
    }
    assert(fv.subrange(0, i as int) =~= fv);
}

impl Database {
    /// Rebuilds every index the schema calls for over the current tables.
    pub fn rebuild_indexes(&mut self)
        ensures
            final(self)@.tables == old(self)@.tables,
            final(self)@.config == old(self)@.config,
            final(self)@.counters == old(self)@.counters,
            final(self)@.indexes == index_set(old(self)@.config, old(self)@.tables),
    {
        let ghost cfg = self@.config;
        let mut out: Vec<FieldIndex> = Vec::new();
        let mut i: usize = 0;
        assert(cfg.subrange(0, 0) =~= Seq::<TableV>::empty());
        assert(indexes_view(out@) =~= Seq::<IndexV>::empty());
        while i < self.config.tables.len()
            invariant
                i <= self.config.tables@.len(),
                cfg == self@.config,
                self@.tables == old(self)@.tables,
                self@.config == old(self)@.config,
                self@.counters == old(self)@.counters,
                indexes_view(out@) == index_set(cfg.subrange(0, i as int), self@.tables),
            decreases self.config.tables.len() - i,
        {
            assert(cfg.subrange(0, i + 1).drop_last() =~= cfg.subrange(0, i as int));
            assert(cfg.subrange(0, i + 1).last() == self.config.tables@[i as int]@);
            let tc = &self.config.tables[i];
            let empty: Vec<Row> = Vec::new();
            match self.find_table(tc.name.as_str()) {
                Some(t) => {
                    assert(self@.tables[t as int] == self.tables@[t as int]@);
                    table_indexes_exec(&tc.name, &tc.fields, &self.tables[t].rows, &mut out);
                },
                None => {
                    assert(rows_view(empty@) =~= Seq::<RowV>::empty());
                    table_indexes_exec(&tc.name, &tc.fields, &empty, &mut out);
                },
            }
            i = i + 1;
        }
        assert(cfg.subrange(0, i as int) =~= cfg);
        self.indexes = out;
    }
}


pub open spec fn index_key(x: IndexV) -> (Seq<char>, Seq<char>, bool) {
    (x.table, x.field, x.fulltext)
}

/// The position of the first index of that kind on that field, or -1.
pub open spec fn find_index(ixs: Seq<IndexV>, table: Seq<char>, field: Seq<char>, fulltext: bool) -> int {
    seq_first_index(ixs.map_values(|x: IndexV| index_key(x)), (table, field, fulltext))
}

/// The ids under every key that contains the lowercased query, in entry order.
pub open spec fn matching_ids(e: EntriesV, q: Seq<char>) -> Seq<int>
    decreases e.len(),
{
    if e.len() == 0 {
        Seq::empty()
    } else {
        matching_ids(e.drop_last(), q) + if has_substring(e.last().0, lower_of(q)) { e.last().1 } else { Seq::empty() }
    }
}

/// Every index of the set is built over the current rows of its table.
pub proof fn lemma_index_set_built(cfg: Seq<TableV>, tables: Seq<TableStateV>, k: int)
    requires
        0 <= k < index_set(cfg, tables).len(),
    ensures
        index_set(cfg, tables)[k].entries == build_index(
            rows_or_empty(tables, index_set(cfg, tables)[k].table),
            index_set(cfg, tables)[k].field,
            index_set(cfg, tables)[k].fulltext,
        ),
    decreases cfg.len(),
{
    let t = cfg.last();
    let a = index_set(cfg.drop_last(), tables);
    let b = table_indexes(t.name, t.fields, rows_or_empty(tables, t.name));
    if k < a.len() {
        lemma_index_set_built(cfg.drop_last(), tables, k);
        assert(index_set(cfg, tables)[k] == a[k]);
    } else {
        assert(index_set(cfg, tables)[k] == b[k - a.len()]);
        lemma_table_indexes_built(t.name, t.fields, rows_or_empty(tables, t.name), k - a.len());
    }
}

proof fn lemma_table_indexes_built(name: Seq<char>, fields: Seq<FieldV>, rows: Seq<RowV>, k: int)
    requires
        0 <= k < table_indexes(name, fields, rows).len(),
    ensures
        table_indexes(name, fields, rows)[k].table == name,
        table_indexes(name, fields, rows)[k].entries == build_index(rows, table_indexes(name, fields, rows)[k].field, table_indexes(name, fields, rows)[k].fulltext),
    decreases fields.len(),
{
    let rest = table_indexes(name, fields.drop_last(), rows);
    if k < rest.len() {
        lemma_table_indexes_built(name, fields.drop_last(), rows, k);
    }
}

impl Database {
    /// The position of the first index of that kind on that field.
    fn find_index_exec(&self, table: &str, field: &str, fulltext: bool) -> (r: Option<usize>)
        ensures
            match r {
                Some(i) => i < self@.indexes.len() && find_index(self@.indexes, table@, field@, fulltext) == i as int,
                None => find_index(self@.indexes, table@, field@, fulltext) == -1,
            },
    {
        let ghost ks = self@.indexes.map_values(|x: IndexV| index_key(x));
        let mut i: usize = 0;
        while i < self.indexes.len()
            invariant
                i <= self.indexes@.len(),
                ks == self@.indexes.map_values(|x: IndexV| index_key(x)),
                ks.len() == self.indexes@.len(),
                forall|m: int| 0 <= m < i ==> ks[m] != (table@, field@, fulltext),
            decreases self.indexes.len() - i,
        {
            let ix = &self.indexes[i];
            assert(ks[i as int] == (ix.table@, ix.field@, ix.fulltext));
            if ix.fulltext == fulltext && str_eq(ix.table.as_str(), table) && str_eq(ix.field.as_str(), field) {
                proof {
                    lemma_seq_first_index(ks, (table@, field@, fulltext), i as int);
                }
                return Some(i);
            }
            i = i + 1;
        }
        proof {
            lemma_seq_first_index(ks, (table@, field@, fulltext), ks.len() as int);
        }
        None
    }

    /// The ids the secondary index on `table.field` lists under `key`;
    /// `None` where the field has no secondary index.
    pub fn index_lookup(&self, table: &str, field: &str, key: &str) -> (r: Option<Vec<i32>>)
        ensures
            match r {
                Some(ids) => find_index(self@.indexes, table@, field@, false) >= 0
                    && ids_view(ids@) == entry_ids(self@.indexes[find_index(self@.indexes, table@, field@, false)].entries, key@),
                None => find_index(self@.indexes, table@, field@, false) < 0,
            },
    {
        match self.find_index_exec(table, field, false) {
            None => None,
            Some(i) => {
                let ix = &self.indexes[i];
                let ghost ev = entries_view(ix.entries@);
                assert(self@.indexes[i as int].entries == ev);
                let ghost ks = keys_of(ev);
                let mut j: usize = 0;
                while j < ix.entries.len()
                    invariant
                        j <= ix.entries@.len(),
                        i < self@.indexes.len(),
                        find_index(self@.indexes, table@, field@, false) == i as int,
                        self@.indexes[i as int].entries == ev,
                        ev == entries_view(ix.entries@),
                        ks == keys_of(ev),
                        ks.len() == ix.entries@.len(),
                        forall|m: int| 0 <= m < j ==> ks[m] != key@,
                    decreases ix.entries.len() - j,
                {
                    assert(ks[j as int] == ix.entries@[j as int].0@);
                    if str_eq(ix.entries[j].0.as_str(), key) {
                        proof {
                            lemma_seq_first_index(ks, key@, j as int);
                        }
                        assert(ev[j as int] == (ix.entries@[j as int].0@, ids_view(ix.entries@[j as int].1@)));
                        let ids = copy_ids(&ix.entries[j].1);
                        return Some(ids);
                    }
                    j = j + 1;
                }
                proof {
                    lemma_seq_first_index(ks, key@, ks.len() as int);
                }
                let none: Vec<i32> = Vec::new();
                assert(ids_view(none@) =~= Seq::<int>::empty());
                Some(none)
            },
        }
    }

    /// The ids the full-text index on `table.field` lists under every word
    /// that contains the lowercased query; `None` where the field has no
    /// full-text index.
    pub fn fulltext_lookup(&self, table: &str, field: &str, q: &str) -> (r: Option<Vec<i32>>)
        ensures
            match r {
                Some(ids) => find_index(self@.indexes, table@, field@, true) >= 0
                    && ids_view(ids@) == matching_ids(self@.indexes[find_index(self@.indexes, table@, field@, true)].entries, q@),
                None => find_index(self@.indexes, table@, field@, true) < 0,
            },
    {
        match self.find_index_exec(table, field, true) {
            None => None,
            Some(i) => {
                let ix = &self.indexes[i];
                let ghost ev = entries_view(ix.entries@);
                assert(self@.indexes[i as int].entries == ev);
                let needle = chars_of(lowercase(q).as_str());
                let mut out: Vec<i32> = Vec::new();
                let mut j: usize = 0;
                assert(ev.subrange(0, 0) =~= Seq::<(Seq<char>, Seq<int>)>::empty());
                assert(ids_view(out@) =~= Seq::<int>::empty());
                while j < ix.entries.len()
                    invariant
                        j <= ix.entries@.len(),
                        ev == entries_view(ix.entries@),
                        needle@ == lower_of(q@),
                        ids_view(out@) == matching_ids(ev.subrange(0, j as int), q@),
                    decreases ix.entries.len() - j,
                {
                    assert(ev.subrange(0, j + 1).drop_last() =~= ev.subrange(0, j as int));
                    assert(ev.subrange(0, j + 1).last() == ev[j as int]);
                    assert(ev[j as int] == (ix.entries@[j as int].0@, ids_view(ix.entries@[j as int].1@)));
                    let key = chars_of(ix.entries[j].0.as_str());
                    if contains_chars(&key, &needle) {
                        let ids = &ix.entries[j].1;
                        let ghost before = ids_view(out@);
                        let mut m: usize = 0;
                        while m < ids.len()
                            invariant
                                m <= ids@.len(),
                                ids_view(out@) == before + ids_view(ids@).subrange(0, m as int),
                            decreases ids.len() - m,
                        {
                            let ghost ob = out@;
                            let x = ids[m];
                            out.push(x);
                            assert(out@ == ob.push(x));
                            assert(ids_view(out@) =~= ids_view(ob).push(x as int));
                            assert(ids_view(out@) =~= before + ids_view(ids@).subrange(0, m + 1));
                            m = m + 1;
                        }
                        assert(ids_view(ids@).subrange(0, m as int) =~= ids_view(ids@));
                    } else {
                        assert(ids_view(out@) =~= ids_view(out@) + Seq::<int>::empty());
                    }
                    j = j + 1;
                }
                assert(ev.subrange(0, j as int) =~= ev);
                Some(out)
            },
        }
    }
}

fn copy_ids(v: &Vec<i32>) -> (r: Vec<i32>)
    ensures
        ids_view(r@) == ids_view(v@),
{
    let mut r: Vec<i32> = Vec::new();
    let mut i: usize = 0;
    while i < v.len()
        invariant
            i <= v@.len(),
            r@ == v@.subrange(0, i as int),
        decreases v.len() - i,
    {
        r.push(v[i]);
        assert(r@ =~= v@.subrange(0, i + 1));
        i = i + 1;
    }
    assert(r@ =~= v@);
    r
}

/// What a secondary-index lookup returns on a well-formed engine is exactly
/// the set of ids of the rows of that table whose field has that canonical
/// text.
pub proof fn lemma_lookup_matches_rows(db: crate::db::DbV, table: Seq<char>, field: Seq<char>, key: Seq<char>)
    requires
        db.indexes == index_set(db.config, db.tables),
        find_index(db.indexes, table, field, false) >= 0,
    ensures
        entry_ids(db.indexes[find_index(db.indexes, table, field, false)].entries, key).to_set()
            == Set::new(|id: int| exists|i: int| 0 <= i < rows_or_empty(db.tables, table).len()
                && rows_or_empty(db.tables, table)[i].id == id
                && text_of(row_get(rows_or_empty(db.tables, table)[i], field)) == Some(key)),
{
    let ks = db.indexes.map_values(|x: IndexV| index_key(x));
    let p = find_index(db.indexes, table, field, false);
    lemma_first_index_props(ks, (table, field, false));
    assert(index_key(db.indexes[p]) == (table, field, false));
    lemma_index_set_built(db.config, db.tables, p);
    let rows = rows_or_empty(db.tables, table);
    lemma_index_exact(rows, field, false, key);
    lemma_secondary_carriers(rows, field, key);
}


/// Whether some key of the row contains the text.
pub open spec fn row_hits(r: RowV, f: Seq<char>, lq: Seq<char>) -> bool {
    exists|m: int| 0 <= m < row_keys(r, f, true).len() && has_substring(#[trigger] row_keys(r, f, true)[m], lq)
}

/// The ids listed under some key that contains the text.
pub open spec fn entries_hit(e: EntriesV, lq: Seq<char>, id: int) -> bool {
    exists|k: int| 0 <= k < e.len() && has_substring(#[trigger] e[k].0, lq) && e[k].1.contains(id)
}

proof fn lemma_matching_ids_set(e: EntriesV, q: Seq<char>, id: int)
    ensures
        matching_ids(e, q).contains(id) == entries_hit(e, lower_of(q), id),
    decreases e.len(),
{
    let lq = lower_of(q);
    if e.len() > 0 {
        let init = e.drop_last();
        lemma_matching_ids_set(init, q, id);
        let tail = if has_substring(e.last().0, lq) { e.last().1 } else { Seq::<int>::empty() };
        let all = matching_ids(init, q) + tail;
        assert(matching_ids(e, q) == all);
        if all.contains(id) {
            let p = choose|p: int| 0 <= p < all.len() && all[p] == id;
            if p < matching_ids(init, q).len() {
                assert(matching_ids(init, q)[p] == id);
                let k = choose|k: int| 0 <= k < init.len() && has_substring(#[trigger] init[k].0, lq) && init[k].1.contains(id);
                assert(e[k] == init[k]);
            } else {
                assert(tail[p - matching_ids(init, q).len()] == id);
                assert(e[e.len() - 1] == e.last());
            }
        }
        if entries_hit(e, lq, id) {
            let k = choose|k: int| 0 <= k < e.len() && has_substring(#[trigger] e[k].0, lq) && e[k].1.contains(id);
            if k < init.len() {
                assert(init[k] == e[k]);
                assert(matching_ids(init, q).contains(id));
                let p = choose|p: int| 0 <= p < matching_ids(init, q).len() && matching_ids(init, q)[p] == id;
                assert(all[p] == id);
            } else {
                let p = choose|p: int| 0 <= p < e.last().1.len() && e.last().1[p] == id;
                assert(all[matching_ids(init, q).len() + p] == id);
            }
        }
    }
}

proof fn lemma_index_add_hit(e: EntriesV, key: Seq<char>, id: int, lq: Seq<char>, x: int)
    ensures
        entries_hit(index_add(e, key, id), lq, x) == (entries_hit(e, lq, x) || (x == id && has_substring(key, lq))),
{
    let ks = keys_of(e);
    let j = seq_first_index(ks, key);
    let n = index_add(e, key, id);
    if j < 0 {
        assert(n == e.push((key, seq![id])));
        if entries_hit(n, lq, x) {
            let k = choose|k: int| 0 <= k < n.len() && has_substring(#[trigger] n[k].0, lq) && n[k].1.contains(x);
            if k < e.len() {
                assert(n[k] == e[k]);
                assert(has_substring(e[k].0, lq) && e[k].1.contains(x));
                assert(entries_hit(e, lq, x));
            } else {
                assert(n[k] == (key, seq![id]));
                let p = choose|p: int| 0 <= p < n[k].1.len() && n[k].1[p] == x;
                assert(seq![id][p] == id);
                assert(x == id && has_substring(key, lq));
            }
        }
        if entries_hit(e, lq, x) {
            let k = choose|k: int| 0 <= k < e.len() && has_substring(#[trigger] e[k].0, lq) && e[k].1.contains(x);
            assert(n[k] == e[k]);
            assert(has_substring(n[k].0, lq) && n[k].1.contains(x));
            assert(entries_hit(n, lq, x));
        }
        if x == id && has_substring(key, lq) {
            let k = e.len() as int;
            assert(n[k] == (key, seq![id]));
            assert(seq![id][0] == id);
            assert(n[k].1.contains(x));
            assert(has_substring(n[k].0, lq) && n[k].1.contains(x));
            assert(entries_hit(n, lq, x));
        }
    } else {
        lemma_first_index_props(ks, key);
        assert(e[j].0 == key);
        assert(n == e.update(j, (key, e[j].1.push(id))));
        if entries_hit(n, lq, x) {
            let k = choose|k: int| 0 <= k < n.len() && has_substring(#[trigger] n[k].0, lq) && n[k].1.contains(x);
            if k != j {
                assert(n[k] == e[k]);
                assert(has_substring(e[k].0, lq) && e[k].1.contains(x));
                assert(entries_hit(e, lq, x));
            } else {
                let p = choose|p: int| 0 <= p < n[k].1.len() && n[k].1[p] == x;
                if p < e[j].1.len() {
                    assert(e[j].1[p] == x);
                    assert(has_substring(e[j].0, lq) && e[j].1.contains(x));
                    assert(entries_hit(e, lq, x));
                } else {
                    assert(x == id && has_substring(key, lq));
                }
            }
        }
        if entries_hit(e, lq, x) {
            let k = choose|k: int| 0 <= k < e.len() && has_substring(#[trigger] e[k].0, lq) && e[k].1.contains(x);
            if k != j {
                assert(n[k] == e[k]);
            } else {
                let p = choose|p: int| 0 <= p < e[k].1.len() && e[k].1[p] == x;
                assert(n[k].1[p] == x);
            }
            assert(has_substring(n[k].0, lq) && n[k].1.contains(x));
            assert(entries_hit(n, lq, x));
        }
        if x == id && has_substring(key, lq) {
            assert(n[j].1[e[j].1.len() as int] == id);
            assert(has_substring(n[j].0, lq) && n[j].1.contains(x));
            assert(entries_hit(n, lq, x));
        }
    }
}

proof fn lemma_index_add_all_hit(e: EntriesV, ks: Seq<Seq<char>>, id: int, lq: Seq<char>, x: int)
    ensures
        entries_hit(index_add_all(e, ks, id), lq, x) == (entries_hit(e, lq, x)
            || (x == id && exists|m: int| 0 <= m < ks.len() && has_substring(#[trigger] ks[m], lq))),
    decreases ks.len(),
{
    if ks.len() > 0 {
        let init = ks.drop_last();
        lemma_index_add_all_hit(e, init, id, lq, x);
        lemma_index_add_hit(index_add_all(e, init, id), ks.last(), id, lq, x);
        if exists|m: int| 0 <= m < ks.len() && has_substring(#[trigger] ks[m], lq) {
            let m = choose|m: int| 0 <= m < ks.len() && has_substring(#[trigger] ks[m], lq);
            if m < init.len() {
                assert(init[m] == ks[m]);
            }
        }
        if exists|m: int| 0 <= m < init.len() && has_substring(#[trigger] init[m], lq) {
            let m = choose|m: int| 0 <= m < init.len() && has_substring(#[trigger] init[m], lq);
            assert(ks[m] == init[m]);
        }
    }
}

/// A full-text lookup lists an id exactly when some row with that id has a
/// word containing the lowercased query.
pub proof fn lemma_fulltext_exact(rows: Seq<RowV>, f: Seq<char>, q: Seq<char>, x: int)
    ensures
        matching_ids(build_index(rows, f, true), q).contains(x)
            == exists|j: int| 0 <= j < rows.len() && rows[j].id == x && #[trigger] row_hits(rows[j], f, lower_of(q)),
    decreases rows.len(),
{
    let lq = lower_of(q);
    lemma_matching_ids_set(build_index(rows, f, true), q, x);
    if rows.len() == 0 {
    } else {
        let init = rows.drop_last();
        let r = rows.last();
        lemma_fulltext_exact(init, f, q, x);
        lemma_matching_ids_set(build_index(init, f, true), q, x);
        lemma_index_add_all_hit(build_index(init, f, true), row_keys(r, f, true), r.id, lq, x);
        if exists|j: int| 0 <= j < rows.len() && rows[j].id == x && #[trigger] row_hits(rows[j], f, lq) {
            let j = choose|j: int| 0 <= j < rows.len() && rows[j].id == x && #[trigger] row_hits(rows[j], f, lq);
            if j < init.len() {
                assert(init[j] == rows[j]);
            } else {
                assert(rows[j] == r);
            }
        }
        if exists|j: int| 0 <= j < init.len() && init[j].id == x && #[trigger] row_hits(init[j], f, lq) {
            let j = choose|j: int| 0 <= j < init.len() && init[j].id == x && #[trigger] row_hits(init[j], f, lq);
            assert(rows[j] == init[j]);
        }
        if x == r.id && row_hits(r, f, lq) {
            assert(rows[rows.len() - 1] == r);
        }
    }
}


/// The indexes after row `r` joins table `name`: each index of that table
/// gains the row's keys.
pub open spec fn with_row(ixs: Seq<IndexV>, name: Seq<char>, r: RowV) -> Seq<IndexV> {
    ixs.map_values(|ix: IndexV| if ix.table == name {
        IndexV { table: ix.table, field: ix.field, fulltext: ix.fulltext, entries: index_add_all(ix.entries, row_keys(r, ix.field, ix.fulltext), r.id) }
    } else {
        ix
    })
}

proof fn lemma_table_indexes_push(name: Seq<char>, fields: Seq<FieldV>, rows: Seq<RowV>, r: RowV)
    ensures
        table_indexes(name, fields, rows.push(r)) == with_row(table_indexes(name, fields, rows), name, r),
    decreases fields.len(),
{
    assert(rows.push(r).drop_last() =~= rows);
    if fields.len() > 0 {
        lemma_table_indexes_push(name, fields.drop_last(), rows, r);
        let f = fields.last();
        let rest = table_indexes(name, fields.drop_last(), rows);
        let a = if f.indexed { rest.push(IndexV { table: name, field: f.name, fulltext: false, entries: build_index(rows, f.name, false) }) } else { rest };
        let b = if f.fulltext { a.push(IndexV { table: name, field: f.name, fulltext: true, entries: build_index(rows, f.name, true) }) } else { a };
        assert(with_row(b, name, r) =~= table_indexes(name, fields, rows.push(r)));
    } else {
        assert(with_row(Seq::<IndexV>::empty(), name, r) =~= Seq::<IndexV>::empty());
    }
}

proof fn lemma_table_indexes_names(name: Seq<char>, fields: Seq<FieldV>, rows: Seq<RowV>, other: Seq<char>, r: RowV)
    requires
        name != other,
    ensures
        with_row(table_indexes(name, fields, rows), other, r) == table_indexes(name, fields, rows),
{
    let t = table_indexes(name, fields, rows);
    assert forall|k: int| 0 <= k < t.len() implies #[trigger] t[k].table == name by {
        lemma_table_indexes_built(name, fields, rows, k);
    }
    assert(with_row(t, other, r) =~= t);
}

/// Appending a row to a table leaves every other table's rows where they were.
pub proof fn lemma_rows_after_push(tables: Seq<TableStateV>, tpos: int, r: RowV, x: Seq<char>)
    requires
        0 <= tpos < tables.len(),
    ensures
        rows_or_empty(tables.update(tpos, TableStateV { name: tables[tpos].name, rows: tables[tpos].rows.push(r) }), x)
            == (if table_pos(tables, x) == tpos { tables[tpos].rows.push(r) } else { rows_or_empty(tables, x) }),
{
    let t2 = tables.update(tpos, TableStateV { name: tables[tpos].name, rows: tables[tpos].rows.push(r) });
    assert(t2.map_values(|t: TableStateV| t.name) =~= tables.map_values(|t: TableStateV| t.name));
    let p = table_pos(tables, x);
    assert(table_pos(t2, x) == p);
    if p >= 0 {
        crate::index::lemma_first_index_props(tables.map_values(|t: TableStateV| t.name), x);
        if p != tpos {
            assert(t2[p] == tables[p]);
        }
    }
}

/// The index set after a row is appended to the table at `tpos` is the old
/// one with the row's keys added to that table's indexes.
pub proof fn lemma_index_set_push(cfg: Seq<TableV>, tables: Seq<TableStateV>, tpos: int, r: RowV)
    requires
        0 <= tpos < tables.len(),
        table_pos(tables, tables[tpos].name) == tpos,
    ensures
        index_set(cfg, tables.update(tpos, TableStateV { name: tables[tpos].name, rows: tables[tpos].rows.push(r) }))
            == with_row(index_set(cfg, tables), tables[tpos].name, r),
    decreases cfg.len(),
{
    let n = tables[tpos].name;
    let t2 = tables.update(tpos, TableStateV { name: n, rows: tables[tpos].rows.push(r) });
    if cfg.len() == 0 {
        assert(with_row(Seq::<IndexV>::empty(), n, r) =~= Seq::<IndexV>::empty());
    } else {
        lemma_index_set_push(cfg.drop_last(), tables, tpos, r);
        let t = cfg.last();
        lemma_rows_after_push(tables, tpos, r, t.name);
        let a = index_set(cfg.drop_last(), tables);
        let b = table_indexes(t.name, t.fields, rows_or_empty(tables, t.name));
        if t.name == n {
            lemma_table_indexes_push(t.name, t.fields, rows_or_empty(tables, t.name), r);
        } else {
            if table_pos(tables, t.name) == tpos {
                crate::index::lemma_first_index_props(tables.map_values(|x: TableStateV| x.name), t.name);
            }
            lemma_table_indexes_names(t.name, t.fields, rows_or_empty(tables, t.name), n, r);
        }
        assert(with_row(a + b, n, r) =~= with_row(a, n, r) + with_row(b, n, r));
    }
}

impl Database {
    /// Adds a row's keys to every index of its table.
    pub(crate) fn index_row(&mut self, table: &String, r: &Row)
        ensures
            final(self)@.tables == old(self)@.tables,
            final(self)@.config == old(self)@.config,
            final(self)@.counters == old(self)@.counters,
            final(self)@.indexes == with_row(old(self)@.indexes, table@, r@),
    {
        let ghost ixs = self@.indexes;
        let n = self.indexes.len();
        let mut i: usize = 0;
        while i < n
            invariant
                i <= n,
                n == ixs.len(),
                self@.tables == old(self)@.tables,
                self@.config == old(self)@.config,
                self@.counters == old(self)@.counters,
                ixs == old(self)@.indexes,
                self@.indexes.len() == n,
                forall|k: int| 0 <= k < i ==> #[trigger] self@.indexes[k] == with_row(ixs, table@, r@)[k],
                forall|k: int| i <= k < n ==> #[trigger] self@.indexes[k] == ixs[k],
            decreases n - i,
        {
            assert(self@.indexes[i as int] == self.indexes@[i as int]@);
            let ghost before = self@.indexes;
            if str_eq(self.indexes[i].table.as_str(), table.as_str()) {
                let ks = row_keys_exec(r, self.indexes[i].field.as_str(), self.indexes[i].fulltext);
                let ghost ksv = strings_view(ks@);
                let mut e: Vec<(String, Vec<i32>)> = Vec::new();
                std::mem::swap(&mut e, &mut self.indexes[i].entries);
                let ghost start = entries_view(e@);
                assert(start == ixs[i as int].entries);
                let mut j: usize = 0;
                assert(ksv.subrange(0, 0) =~= Seq::<Seq<char>>::empty());
                while j < ks.len()
                    invariant
                        j <= ks@.len(),
                        ksv == strings_view(ks@),
                        entries_view(e@) == index_add_all(start, ksv.subrange(0, j as int), r@.id),
                    decreases ks.len() - j,
                {
                    assert(ksv.subrange(0, j + 1).drop_last() =~= ksv.subrange(0, j as int));
                    assert(ksv.subrange(0, j + 1).last() == ks@[j as int]@);
                    index_add_exec(&mut e, ks[j].clone(), r.id);
                    j = j + 1;
                }
                assert(ksv.subrange(0, j as int) =~= ksv);
                self.indexes[i].entries = e;
                assert(self@.indexes[i as int] == with_row(ixs, table@, r@)[i as int]);
                assert forall|k: int| 0 <= k < n && k != i implies #[trigger] self@.indexes[k] == before[k] by {
                    assert(self.indexes@[k] == old(self).indexes@[k] || self@.indexes[k] == before[k]);
                }
            } else {
                assert(with_row(ixs, table@, r@)[i as int] == ixs[i as int]);
            }
            i = i + 1;
        }
        assert(self@.indexes =~= with_row(ixs, table@, r@));
    }
}


/// The index set depends on the tables only through the rows each name has.
pub proof fn lemma_index_set_same_rows(cfg: Seq<TableV>, t1: Seq<TableStateV>, t2: Seq<TableStateV>)
    requires
        forall|x: Seq<char>| #[trigger] rows_or_empty(t1, x) == rows_or_empty(t2, x),
    ensures
        index_set(cfg, t1) == index_set(cfg, t2),
    decreases cfg.len(),
{
    if cfg.len() > 0 {
        lemma_index_set_same_rows(cfg.drop_last(), t1, t2);
        assert(rows_or_empty(t1, cfg.last().name) == rows_or_empty(t2, cfg.last().name));
    }
}

/// A new empty table under a fresh name changes no name's rows.
pub proof fn lemma_rows_after_new_table(tables: Seq<TableStateV>, name: Seq<char>, x: Seq<char>)
    requires
        table_pos(tables, name) < 0,
    ensures
        rows_or_empty(tables.push(TableStateV { name, rows: Seq::empty() }), x) == rows_or_empty(tables, x),
{
    let t2 = tables.push(TableStateV { name, rows: Seq::empty() });
    let ns = tables.map_values(|t: TableStateV| t.name);
    let ns2 = t2.map_values(|t: TableStateV| t.name);
    assert(ns2 =~= ns.push(name));
    let p = table_pos(tables, x);
    if p >= 0 {
        lemma_first_index_props(ns, x);
        assert forall|m: int| 0 <= m < p implies ns2[m] != x by {
            assert(ns2[m] == ns[m]);
        }
        lemma_seq_first_index(ns2, x, p);
        assert(t2[p] == tables[p]);
    } else {
        lemma_first_index_absent(ns, x);
        if x == name {
            lemma_seq_first_index(ns2, x, ns.len() as int);
            assert(t2[ns.len() as int].rows == Seq::<RowV>::empty());
        } else {
            assert forall|m: int| 0 <= m < ns2.len() implies ns2[m] != x by {
                if m < ns.len() {
                    assert(ns2[m] == ns[m]);
                }
            }
            lemma_seq_first_index(ns2, x, ns2.len() as int);
        }
    }
}


/// The indexes with those of table `name` built over `rows`.
pub open spec fn with_rows(ixs: Seq<IndexV>, name: Seq<char>, rows: Seq<RowV>) -> Seq<IndexV> {
    ixs.map_values(|ix: IndexV| if ix.table == name {
        IndexV { table: ix.table, field: ix.field, fulltext: ix.fulltext, entries: build_index(rows, ix.field, ix.fulltext) }
    } else {
        ix
    })
}

proof fn lemma_table_indexes_rows(name: Seq<char>, fields: Seq<FieldV>, rows: Seq<RowV>, rows2: Seq<RowV>)
    ensures
        table_indexes(name, fields, rows2) == with_rows(table_indexes(name, fields, rows), name, rows2),
    decreases fields.len(),
{
    if fields.len() > 0 {
        lemma_table_indexes_rows(name, fields.drop_last(), rows, rows2);
        let f = fields.last();
        let rest = table_indexes(name, fields.drop_last(), rows);
        let a = if f.indexed { rest.push(IndexV { table: name, field: f.name, fulltext: false, entries: build_index(rows, f.name, false) }) } else { rest };
        let b = if f.fulltext { a.push(IndexV { table: name, field: f.name, fulltext: true, entries: build_index(rows, f.name, true) }) } else { a };
        assert(with_rows(b, name, rows2) =~= table_indexes(name, fields, rows2));
    } else {
        assert(with_rows(Seq::<IndexV>::empty(), name, rows2) =~= Seq::<IndexV>::empty());
    }
}

proof fn lemma_table_indexes_other(name: Seq<char>, fields: Seq<FieldV>, rows: Seq<RowV>, other: Seq<char>, rows2: Seq<RowV>)
    requires
        name != other,
    ensures
        with_rows(table_indexes(name, fields, rows), other, rows2) == table_indexes(name, fields, rows),
{
    let t = table_indexes(name, fields, rows);
    assert forall|k: int| 0 <= k < t.len() implies #[trigger] t[k].table == name by {
        lemma_table_indexes_built(name, fields, rows, k);
    }
    assert(with_rows(t, other, rows2) =~= t);
}

/// The index set after the rows of the table at `tpos` are replaced is the
/// old one with that table's indexes built over the new rows.
pub proof fn lemma_index_set_replace(cfg: Seq<TableV>, tables: Seq<TableStateV>, tpos: int, rows2: Seq<RowV>)
    requires
        0 <= tpos < tables.len(),
        table_pos(tables, tables[tpos].name) == tpos,
    ensures
        index_set(cfg, tables.update(tpos, TableStateV { name: tables[tpos].name, rows: rows2 }))
            == with_rows(index_set(cfg, tables), tables[tpos].name, rows2),
    decreases cfg.len(),
{
    let n = tables[tpos].name;
    let t2 = tables.update(tpos, TableStateV { name: n, rows: rows2 });
    if cfg.len() == 0 {
        assert(with_rows(Seq::<IndexV>::empty(), n, rows2) =~= Seq::<IndexV>::empty());
    } else {
        lemma_index_set_replace(cfg.drop_last(), tables, tpos, rows2);
        let t = cfg.last();
        assert(t2.map_values(|x: TableStateV| x.name) =~= tables.map_values(|x: TableStateV| x.name));
        let p = table_pos(tables, t.name);
        assert(table_pos(t2, t.name) == p);
        if p >= 0 {
            lemma_first_index_props(tables.map_values(|x: TableStateV| x.name), t.name);
            if p != tpos {
                assert(t2[p] == tables[p]);
            }
        }
        let a = index_set(cfg.drop_last(), tables);
        let b = table_indexes(t.name, t.fields, rows_or_empty(tables, t.name));
        if t.name == n {
            lemma_table_indexes_rows(t.name, t.fields, rows_or_empty(tables, t.name), rows2);
        } else {
            lemma_table_indexes_other(t.name, t.fields, rows_or_empty(tables, t.name), n, rows2);
        }
        assert(with_rows(a + b, n, rows2) =~= with_rows(a, n, rows2) + with_rows(b, n, rows2));
    }
}

impl Database {
    /// Rebuilds the indexes of one table over the rows given.
    pub(crate) fn reindex_table(&mut self, table: &String, rows: &Vec<Row>)
        ensures
            final(self)@.tables == old(self)@.tables,
            final(self)@.config == old(self)@.config,
            final(self)@.counters == old(self)@.counters,
            final(self)@.indexes == with_rows(old(self)@.indexes, table@, rows_view(rows@)),
    {
        let ghost ixs = self@.indexes;
        let n = self.indexes.len();
        let mut i: usize = 0;
        while i < n
            invariant
                i <= n,
                n == ixs.len(),
                self@.tables == old(self)@.tables,
                self@.config == old(self)@.config,
                self@.counters == old(self)@.counters,
                ixs == old(self)@.indexes,
                self@.indexes.len() == n,
                forall|k: int| 0 <= k < i ==> #[trigger] self@.indexes[k] == with_rows(ixs, table@, rows_view(rows@))[k],
                forall|k: int| i <= k < n ==> #[trigger] self@.indexes[k] == ixs[k],
            decreases n - i,
        {
            assert(self@.indexes[i as int] == self.indexes@[i as int]@);
            let ghost before = self@.indexes;
            if str_eq(self.indexes[i].table.as_str(), table.as_str()) {
                let e = build_index_exec(rows, self.indexes[i].field.as_str(), self.indexes[i].fulltext);
                self.indexes[i].entries = e;
                assert(self@.indexes[i as int] == with_rows(ixs, table@, rows_view(rows@))[i as int]);
                assert forall|k: int| 0 <= k < n && k != i implies #[trigger] self@.indexes[k] == before[k] by {
                    assert(self.indexes@[k] == old(self).indexes@[k] || self@.indexes[k] == before[k]);
                }
            } else {
                assert(with_rows(ixs, table@, rows_view(rows@))[i as int] == ixs[i as int]);
            }
            i = i + 1;
        }
        assert(self@.indexes =~= with_rows(ixs, table@, rows_view(rows@)));
    }
}


impl Database {
    /// After the rows of the table at `idx` changed, rebuilds its indexes so
    /// that the engine is well formed again.
    pub(crate) fn reindex_at(&mut self, idx: usize, name: &String, Ghost(before): Ghost<Seq<TableStateV>>)
        requires
            crate::db::tables_wf(old(self)@.tables),
            idx < before.len(),
            old(self)@.tables == before.update(idx as int, TableStateV { name: before[idx as int].name, rows: old(self)@.tables[idx as int].rows }),
            table_pos(before, name@) == idx as int,
            old(self)@.indexes == index_set(old(self)@.config, before),
        ensures
            final(self).wf(),
            final(self)@.tables == old(self)@.tables,
            final(self)@.config == old(self)@.config,
            final(self)@.counters == old(self)@.counters,
    {
        proof {
            lemma_first_index_props(before.map_values(|t: TableStateV| t.name), name@);
            lemma_index_set_replace(self@.config, before, idx as int, self@.tables[idx as int].rows);
        }
        let ghost tv = self@.tables;
        assert(tv.len() == before.len());
        assert(self.tables@.len() == tv.len());
        assert(tv[idx as int] == self.tables@[idx as int]@);
        let mut rows: Vec<Row> = Vec::new();
        std::mem::swap(&mut rows, &mut self.tables[idx].rows);
        assert(rows_view(rows@) == tv[idx as int].rows);
        let ghost mid = self@.tables;
        self.reindex_table(name, &rows);
        assert(self@.tables == mid);
        assert(self.tables@.len() == mid.len());
        assert(mid.len() == tv.len());
        self.tables[idx].rows = rows;
        assert forall|k: int| 0 <= k < tv.len() implies #[trigger] self@.tables[k] == tv[k] by {
            if k != idx {
                assert(self@.tables[k] == mid[k]);
            }
        }
        assert(self@.tables =~= tv);
    }
}

} // verus!
