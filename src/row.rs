use vstd::prelude::*;

use crate::text::{assoc_get, lemma_assoc_get_step, str_eq};
use crate::value::{Value, ValueV, value_wf};

verus! {

/// A stored row: its id, its fields, and when it expires (seconds since
/// the Unix epoch), if ever.
#[derive(Debug)]
pub struct Row {
    pub id: i32,
    pub data: Vec<(String, Value)>,
    pub expires_at: Option<i64>,
}

pub struct RowV {
    pub id: int,
    pub data: Seq<(Seq<char>, ValueV)>,
    pub expires_at: Option<int>,
}

pub open spec fn data_view(d: Seq<(String, Value)>) -> Seq<(Seq<char>, ValueV)> {
    d.map_values(|e: (String, Value)| (e.0@, e.1@))
}

impl View for Row {
    type V = RowV;

    open spec fn view(&self) -> RowV {
        RowV {
            id: self.id as int,
            data: data_view(self.data@),
            expires_at: match self.expires_at {
                Some(t) => Some(t as int),
                None => None,
            },
        }
    }
}

/// The value a row holds in a field.
pub open spec fn row_get(r: RowV, f: Seq<char>) -> Option<ValueV> {
    assoc_get(r.data, f)
}

/// A row is live until its expiry time is reached.
pub open spec fn live(r: RowV, now: int) -> bool {
    match r.expires_at {
        Some(t) => t > now,
        None => true,
    }
}

/// No field name occurs twice among a row's fields.
pub open spec fn keys_unique(d: Seq<(Seq<char>, ValueV)>) -> bool {
    forall|i: int, j: int| 0 <= i < j < d.len() ==> #[trigger] d[i].0 != #[trigger] d[j].0
}

pub proof fn lemma_filter_keys(d: Seq<(Seq<char>, ValueV)>, k: Seq<char>)
    requires
        keys_unique(d),
    ensures
        keys_unique(d.filter(other_key(k))),
        forall|i: int| 0 <= i < d.filter(other_key(k)).len() ==> #[trigger] d.filter(other_key(k))[i].0 != k,
        forall|i: int| 0 <= i < d.filter(other_key(k)).len() ==> exists|j: int| 0 <= j < d.len() && d[j] == #[trigger] d.filter(other_key(k))[i],
    decreases d.len(),
{
    reveal(Seq::filter);
    if d.len() > 0 {
        let init = d.drop_last();
        assert(keys_unique(init)) by {
            assert forall|a: int, b: int| 0 <= a < b < init.len() implies #[trigger] init[a].0 != #[trigger] init[b].0 by {
                assert(init[a] == d[a] && init[b] == d[b]);
            }
        }
        lemma_filter_keys(init, k);
        let rest = init.filter(other_key(k));
        let out = d.filter(other_key(k));
        assert forall|i: int| 0 <= i < out.len() implies exists|j: int| 0 <= j < d.len() && d[j] == #[trigger] out[i] by {
            if i < rest.len() {
                assert(out[i] == rest[i]);
                let j = choose|j: int| 0 <= j < init.len() && init[j] == rest[i];
                assert(d[j] == init[j]);
            } else {
                assert(out[i] == d[d.len() - 1]);
            }
        }
        assert forall|a: int, b: int| 0 <= a < b < out.len() implies #[trigger] out[a].0 != #[trigger] out[b].0 by {
            assert(out[a] == rest[a]);
            if b < rest.len() {
                assert(out[b] == rest[b]);
            } else {
                let ja = choose|j: int| 0 <= j < init.len() && init[j] == rest[a];
                assert(d[ja] == init[ja]);
                assert(out[b] == d[d.len() - 1]);
            }
        }
    }
}

/// Setting a field keeps field names distinct.
pub proof fn lemma_data_set_keys(d: Seq<(Seq<char>, ValueV)>, k: Seq<char>, x: ValueV)
    requires
        keys_unique(d),
    ensures
        keys_unique(data_set(d, k, x)),
{
    lemma_filter_keys(d, k);
    let fl = d.filter(other_key(k));
    let out = data_set(d, k, x);
    assert forall|a: int, b: int| 0 <= a < b < out.len() implies #[trigger] out[a].0 != #[trigger] out[b].0 by {
        assert(out[a] == fl[a]);
        if b < fl.len() {
            assert(out[b] == fl[b]);
        } else {
            assert(out[b] == (k, x));
        }
    }
}

pub open spec fn data_wf(d: Seq<(Seq<char>, ValueV)>) -> bool {
    forall|i: int| 0 <= i < d.len() ==> value_wf(#[trigger] d[i].1)
}

/// The fields of a row after `f` is set to `v`: any earlier entry for `f`
/// goes, and the new one comes last.
pub open spec fn data_set(d: Seq<(Seq<char>, ValueV)>, f: Seq<char>, v: ValueV) -> Seq<(Seq<char>, ValueV)> {
    d.filter(other_key(f)).push((f, v))
}

/// Whether an entry is for a field other than `f`.
pub open spec fn other_key(f: Seq<char>) -> spec_fn((Seq<char>, ValueV)) -> bool {
    |e: (Seq<char>, ValueV)| e.0 != f
}

impl Row {
    /// The value the row holds in a field.
    pub fn get(&self, f: &str) -> (r: Option<&Value>)
        ensures
            match r {
                Some(v) => row_get(self@, f@) == Some(v@),
                None => row_get(self@, f@) is None,
            },
    {
        let ghost d = self@.data;
        let mut found: Option<&Value> = None;
        let mut i: usize = 0;
        assert(d.subrange(0, 0) =~= Seq::<(Seq<char>, ValueV)>::empty());
        while i < self.data.len()
            invariant
                i <= self.data@.len(),
                d == self@.data,
                d.len() == self.data@.len(),
                match found {
                    Some(v) => assoc_get(d.subrange(0, i as int), f@) == Some(v@),
                    None => assoc_get(d.subrange(0, i as int), f@) is None,
                },
            decreases self.data.len() - i,
        {
            proof {
                lemma_assoc_get_step(d, f@, i as int);
            }
            let e = &self.data[i];
            assert(d[i as int] == (e.0@, e.1@));
            if str_eq(e.0.as_str(), f) {
                found = Some(&e.1);
            }
            i = i + 1;
        }
        assert(d.subrange(0, i as int) =~= d);
        found
    }

    /// Whether the row is live at `now`.
    pub fn is_live(&self, now: i64) -> (r: bool)
        ensures
            r == live(self@, now as int),
    {
        match self.expires_at {
            Some(t) => t > now,
            None => true,
        }
    }

    /// A copy of the row.
    pub fn copy(&self) -> (r: Row)
        ensures
            r@ == self@,
    {
        Row { id: self.id, data: copy_data(&self.data), expires_at: self.expires_at }
    }
}

/// A copy of a row's fields.
pub fn copy_data(d: &Vec<(String, Value)>) -> (r: Vec<(String, Value)>)
    ensures
        data_view(r@) == data_view(d@),
{
    let mut r: Vec<(String, Value)> = Vec::new();
    let mut i: usize = 0;
    while i < d.len()
        invariant
            i <= d@.len(),
            data_view(r@) == data_view(d@.subrange(0, i as int)),
        decreases d.len() - i,
    {
        let ghost before = r@;
        let e = (d[i].0.clone(), d[i].1.copy());
        r.push(e);
        assert(r@ == before.push(e));
        assert(d@.subrange(0, i + 1) == d@.subrange(0, i as int).push(d@[i as int]));
        assert(data_view(r@) =~= data_view(before).push((e.0@, e.1@)));
        assert(data_view(d@.subrange(0, i + 1)) =~= data_view(d@.subrange(0, i as int)).push((d@[i as int].0@, d@[i as int].1@)));
        i = i + 1;
    }
    assert(d@.subrange(0, i as int) =~= d@);
    r
}

/// Sets field `f` to `v`, as `data_set` states.
pub fn set_field(d: &mut Vec<(String, Value)>, f: String, v: Value)
    ensures
        data_view(final(d)@) == data_set(data_view(old(d)@), f@, v@),
{
    let ghost src = data_view(old(d)@);
    let mut old_items: Vec<(String, Value)> = Vec::new();
    std::mem::swap(d, &mut old_items);
    let mut i: usize = 0;
    proof {
        reveal(Seq::filter);
    }
    assert(src.subrange(0, 0).filter(other_key(f@)) =~= Seq::<(Seq<char>, ValueV)>::empty());
    while i < old_items.len()
        invariant
            i <= old_items@.len(),
            src == data_view(old_items@),
            data_view(d@) == src.subrange(0, i as int).filter(other_key(f@)),
        decreases old_items.len() - i,
    {
        let ghost before = d@;
        proof {
            reveal(Seq::filter);
        }
        assert(src.subrange(0, i + 1).drop_last() =~= src.subrange(0, i as int));
        assert(src[i as int] == (old_items@[i as int].0@, old_items@[i as int].1@));
        let keep = !str_eq(old_items[i].0.as_str(), f.as_str());
        if keep {
            let e = (old_items[i].0.clone(), old_items[i].1.copy());
            d.push(e);
            assert(d@ == before.push(e));
            assert(data_view(d@) =~= data_view(before).push((e.0@, e.1@)));
        }
        i = i + 1;
    }
    assert(src.subrange(0, i as int) =~= src);
    let ghost before = d@;
    let ghost fv = f@;
    let ghost vv = v@;
    d.push((f, v));
    assert(data_view(d@) =~= data_view(before).push((fv, vv)));
}


/// The value a list of fields holds under `f`.
pub fn data_get<'a>(d: &'a Vec<(String, Value)>, f: &str) -> (r: Option<&'a Value>)
    ensures
        match r {
            Some(v) => assoc_get(data_view(d@), f@) == Some(v@),
            None => assoc_get(data_view(d@), f@) is None,
        },
{
    let ghost dv = data_view(d@);
    let mut found: Option<&Value> = None;
    let mut i: usize = 0;
    assert(dv.subrange(0, 0) =~= Seq::<(Seq<char>, ValueV)>::empty());
    while i < d.len()
        invariant
            i <= d@.len(),
            dv == data_view(d@),
            match found {
                Some(v) => assoc_get(dv.subrange(0, i as int), f@) == Some(v@),
                None => assoc_get(dv.subrange(0, i as int), f@) is None,
            },
        decreases d.len() - i,
    {
        proof {
            lemma_assoc_get_step(dv, f@, i as int);
        }
        let e = &d[i];
        assert(dv[i as int] == (e.0@, e.1@));
        if str_eq(e.0.as_str(), f) {
            found = Some(&e.1);
        }
        i = i + 1;
    }
    assert(dv.subrange(0, i as int) =~= dv);
    found
}

} // verus!
