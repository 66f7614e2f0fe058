use vstd::prelude::*;

use crate::query::{CondV, Condition, group_view};
use crate::row::{Row, RowV, data_wf, row_get};
use crate::schema::{DbConfig, TableV, field_spec, fields_spec, type_spec};
use crate::text::{
    chars_of, compare_chars, contains_chars, has_substring, lex_cmp, lower_of, lowercase,
    split_words, str_eq, words_of,
};
use crate::value::{FieldType, Value, ValueV, parse_spec, value_text, value_wf};

verus! {

/// Comparison of a stored value with a literal under the field's declared
/// type: -1, 0 or 1. Typed where the value has the declared type and the
/// literal reads as a value of it; by canonical text otherwise.
pub open spec fn literal_cmp(x: ValueV, lit: Seq<char>, t: FieldType) -> int {
    match (x, parse_spec(t, lit)) {
        (ValueV::Numeric(d), Some(ValueV::Numeric(e))) => d.cmp_spec(e),
        (ValueV::Timestamp(a), Some(ValueV::Timestamp(b))) => if a < b { -1 } else if a > b { 1 } else { 0 },
        (ValueV::Boolean(a), Some(ValueV::Boolean(b))) => if !a && b { -1 } else if a && !b { 1 } else { 0 },
        _ => lex_cmp(value_text(x), lit),
    }
}

/// Whether a field is declared full-text in the table.
pub open spec fn is_fulltext(cfg: Seq<TableV>, table: Seq<char>, f: Seq<char>) -> bool {
    match field_spec(fields_spec(cfg, table), f) {
        Some(fs) => fs.fulltext,
        None => false,
    }
}

/// Whether a value's text matches a `contains` query: through its lowercased
/// words where the field is full-text, through its whole lowercased text
/// otherwise.
pub open spec fn text_contains(x: ValueV, q: Seq<char>, fulltext: bool) -> bool {
    if fulltext {
        exists|i: int| #![trigger words_of(value_text(x))[i]] 0 <= i < words_of(value_text(x)).len()
            && has_substring(lower_of(words_of(value_text(x))[i]), lower_of(q))
    } else {
        has_substring(lower_of(value_text(x)), lower_of(q))
    }
}

/// Whether a row meets one condition.
pub open spec fn cond_holds(cfg: Seq<TableV>, table: Seq<char>, r: RowV, c: CondV) -> bool {
    match c {
        CondV::Eq(f, v) => match row_get(r, f) {
            Some(x) => value_text(x) == v,
            None => false,
        },
        CondV::Lt(f, v) => match row_get(r, f) {
            Some(x) => literal_cmp(x, v, type_spec(cfg, table, f)) < 0,
            None => false,
        },
        CondV::Gt(f, v) => match row_get(r, f) {
            Some(x) => literal_cmp(x, v, type_spec(cfg, table, f)) > 0,
            None => false,
        },
        CondV::Contains(f, v) => match row_get(r, f) {
            Some(x) => text_contains(x, v, is_fulltext(cfg, table, f)),
            None => false,
        },
        CondV::In(f, vs) => match row_get(r, f) {
            Some(x) => vs.contains(value_text(x)),
            None => false,
        },
        CondV::Between(f, lo, hi) => match row_get(r, f) {
            Some(x) => literal_cmp(x, lo, type_spec(cfg, table, f)) >= 0
                && literal_cmp(x, hi, type_spec(cfg, table, f)) <= 0,
            None => false,
        },
    }
}

/// Whether a row meets every condition of a group: a conjunction, so a
/// group with no conditions holds for every row.
pub open spec fn group_holds(cfg: Seq<TableV>, table: Seq<char>, r: RowV, g: Seq<CondV>) -> bool {
    forall|i: int| 0 <= i < g.len() ==> cond_holds(cfg, table, r, #[trigger] g[i])
}

/// Whether a row meets a where clause in disjunctive normal form: some group
/// holds, or there are no groups at all.
pub open spec fn where_holds(cfg: Seq<TableV>, table: Seq<char>, r: RowV, w: Seq<Seq<CondV>>) -> bool {
    w.len() == 0 || exists|i: int| 0 <= i < w.len() && group_holds(cfg, table, r, #[trigger] w[i])
}

/// Comparison of a stored value with a literal under a declared type, as
/// `literal_cmp` states.
pub fn compare_literal(x: &Value, lit: &str, t: FieldType) -> (r: i8)
    requires
        value_wf(x@),
    ensures
        r as int == literal_cmp(x@, lit@, t),
{
    let y = Value::parse_as(t, lit);
    match (x, &y) {
        (Value::Numeric(d), Some(Value::Numeric(e))) => {
            assert(value_wf(Value::Numeric(*e)@));
            d.compare(e)
        },
        (Value::Timestamp(a), Some(Value::Timestamp(b))) => if *a < *b { -1 } else if *a > *b { 1 } else { 0 },
        (Value::Boolean(a), Some(Value::Boolean(b))) => if !*a && *b { -1 } else if *a && !*b { 1 } else { 0 },
        _ => {
            let mut a: Vec<char> = Vec::new();
            x.push_text(&mut a);
            assert(a@ =~= value_text(x@));
            let b = chars_of(lit);
            compare_chars(&a, &b)
        },
    }
}

/// Whether some word contains the query: the step of a full-text match
/// once the words and the query have been lowercased.
pub fn words_contain(words: &Vec<String>, q: &str) -> (r: bool)
    ensures
        r == exists|i: int| 0 <= i < words@.len() && has_substring(#[trigger] words@[i]@, q@),
{
    let needle = chars_of(q);
    let mut i: usize = 0;
    while i < words.len()
        invariant
            i <= words@.len(),
            needle@ == q@,
            forall|k: int| 0 <= k < i ==> !has_substring(#[trigger] words@[k]@, q@),
        decreases words.len() - i,
    {
        let w = chars_of(words[i].as_str());
        if contains_chars(&w, &needle) {
            assert(has_substring(words@[i as int]@, q@));
            return true;
        }
        i = i + 1;
    }
    false
}

/// The lowercased words of a text.
fn lowered_words(t: &str) -> (r: Vec<String>)
    ensures
        r@.len() == words_of(t@).len(),
        forall|k: int| 0 <= k < r@.len() ==> #[trigger] r@[k]@ == lower_of(words_of(t@)[k]),
{
    let words = split_words(t);
    let mut r: Vec<String> = Vec::new();
    let mut i: usize = 0;
    while i < words.len()
        invariant
            i <= words@.len(),
            words@.len() == words_of(t@).len(),
            forall|k: int| 0 <= k < words@.len() ==> #[trigger] words@[k]@ == words_of(t@)[k],
            r@.len() == i,
            forall|k: int| 0 <= k < i ==> #[trigger] r@[k]@ == lower_of(words_of(t@)[k]),
        decreases words.len() - i,
    {
        r.push(lowercase(words[i].as_str()));
        i = i + 1;
    }
    r
}

/// Whether a value's text matches a `contains` query, as `text_contains` states.
pub fn check_contains(x: &Value, q: &str, fulltext: bool) -> (r: bool)
    ensures
        r == text_contains(x@, q@, fulltext),
{
    let lq = lowercase(q);
    let t = x.text();
    if fulltext {
        let lw = lowered_words(t.as_str());
        let r = words_contain(&lw, lq.as_str());
        proof {
            let ws = words_of(value_text(x@));
            if r {
                let i = choose|i: int| 0 <= i < lw@.len() && has_substring(#[trigger] lw@[i]@, lq@);
                assert(lw@[i]@ == lower_of(ws[i]));
                assert(0 <= i < ws.len() && has_substring(lower_of(ws[i]), lower_of(q@)));
            } else if text_contains(x@, q@, true) {
                let i = choose|i: int| #![trigger ws[i]] 0 <= i < ws.len() && has_substring(lower_of(ws[i]), lower_of(q@));
                assert(lw@[i]@ == lower_of(ws[i]));
                assert(has_substring(lw@[i]@, lq@));
            }
        }
        r
    } else {
        let needle = chars_of(lq.as_str());
        let hay = chars_of(lowercase(t.as_str()).as_str());
        contains_chars(&hay, &needle)
    }
}

/// Whether a field is declared full-text in the table.
pub fn fulltext_field(cfg: &DbConfig, table: &str, f: &str) -> (r: bool)
    ensures
        r == is_fulltext(cfg@, table@, f@),
{
    match cfg.find_table(table) {
        None => false,
        Some(t) => match t.find_field(f) {
            Some(fs) => match fs.fulltext {
                Some(b) => b,
                None => false,
            },
            None => false,
        },
    }
}

/// Whether a row meets one condition, as `cond_holds` states.
pub fn check_condition(cfg: &DbConfig, table: &str, r: &Row, c: &Condition) -> (b: bool)
    requires
        data_wf(r@.data),
    ensures
        b == cond_holds(cfg@, table@, r@, c@),
{
    match c {
        Condition::Eq(f, v) => match r.get(f.as_str()) {
            Some(x) => {
                let t = x.text();
                str_eq(t.as_str(), v.as_str())
            },
            None => false,
        },
        Condition::Lt(f, v) => match r.get(f.as_str()) {
            Some(x) => {
                proof { lemma_get_wf(r@, f@); }
                let t = cfg.field_type(table, f.as_str());
                compare_literal(x, v.as_str(), t) < 0
            },
            None => false,
        },
        Condition::Gt(f, v) => match r.get(f.as_str()) {
            Some(x) => {
                proof { lemma_get_wf(r@, f@); }
                let t = cfg.field_type(table, f.as_str());
                compare_literal(x, v.as_str(), t) > 0
            },
            None => false,
        },
        Condition::Contains(f, v) => match r.get(f.as_str()) {
            Some(x) => {
                let ft = fulltext_field(cfg, table, f.as_str());
                check_contains(x, v.as_str(), ft)
            },
            None => false,
        },
        Condition::In(f, vs) => match r.get(f.as_str()) {
            Some(x) => {
                let t = x.text();
                let mut i: usize = 0;
                while i < vs.len()
                    invariant
                        i <= vs@.len(),
                        t@ == value_text(x@),
                        row_get(r@, f@) == Some(x@),
                        c@ == CondV::In(f@, crate::query::strings_view(vs@)),
                        forall|k: int| 0 <= k < i ==> vs@[k]@ != t@,
                    decreases vs.len() - i,
                {
                    if str_eq(vs[i].as_str(), t.as_str()) {
                        assert(crate::query::strings_view(vs@)[i as int] == vs@[i as int]@);
                        let ghost k: int = i as int;
                        let ghost vsv = crate::query::strings_view(vs@);
                        assert(0 <= k < vsv.len() && vsv[k] == value_text(x@));
                        assert(vsv.contains(value_text(x@)));
                        return true;
                    }
                    i = i + 1;
                }
                assert(forall|k: int| #![trigger crate::query::strings_view(vs@)[k]] 0 <= k < vs@.len() ==> crate::query::strings_view(vs@)[k] != value_text(x@));
                false
            },
            None => false,
        },
        Condition::Between(f, lo, hi) => match r.get(f.as_str()) {
            Some(x) => {
                proof { lemma_get_wf(r@, f@); }
                let t = cfg.field_type(table, f.as_str());
                compare_literal(x, lo.as_str(), t) >= 0 && compare_literal(x, hi.as_str(), t) <= 0
            },
            None => false,
        },
    }
}

proof fn lemma_assoc_wf(d: Seq<(Seq<char>, ValueV)>, f: Seq<char>)
    requires
        data_wf(d),
    ensures
        crate::text::assoc_get(d, f) matches Some(x) ==> value_wf(x),
    decreases d.len(),
{
    if d.len() > 0 {
        assert(value_wf(d[d.len() - 1].1));
        assert(data_wf(d.drop_last())) by {
            assert forall|i: int| 0 <= i < d.drop_last().len() implies value_wf(#[trigger] d.drop_last()[i].1) by {
                assert(d.drop_last()[i] == d[i]);
            }
        }
        lemma_assoc_wf(d.drop_last(), f);
    }
}

/// A value held by a well-formed row is well formed.
pub proof fn lemma_get_wf(r: RowV, f: Seq<char>)
    requires
        data_wf(r.data),
    ensures
        row_get(r, f) matches Some(x) ==> value_wf(x),
{
    lemma_assoc_wf(r.data, f);
}

/// Whether a row meets a where clause, as `where_holds` states.
pub fn check_where(cfg: &DbConfig, table: &str, r: &Row, w: &Vec<Vec<Condition>>) -> (b: bool)
    requires
        data_wf(r@.data),
    ensures
        b == where_holds(cfg@, table@, r@, w@.map_values(|g: Vec<Condition>| group_view(g))),
{
    let ghost wv = w@.map_values(|g: Vec<Condition>| group_view(g));
    if w.len() == 0 {
        return true;
    }
    let mut i: usize = 0;
    while i < w.len()
        invariant
            i <= w@.len(),
            data_wf(r@.data),
            wv == w@.map_values(|g: Vec<Condition>| group_view(g)),
            forall|k: int| 0 <= k < i ==> !group_holds(cfg@, table@, r@, #[trigger] wv[k]),
        decreases w.len() - i,
    {
        let g = &w[i];
        assert(wv[i as int] == group_view(*g));
        let mut all = true;
        let mut j: usize = 0;
        while j < g.len()
            invariant
                j <= g@.len(),
                i < w@.len(),
                wv.len() == w@.len(),
                data_wf(r@.data),
                wv[i as int] == group_view(*g),
                all == (forall|m: int| 0 <= m < j ==> cond_holds(cfg@, table@, r@, #[trigger] wv[i as int][m])),
            decreases g.len() - j,
        {
            let h = check_condition(cfg, table, r, &g[j]);
            assert(wv[i as int][j as int] == g@[j as int]@);
            if !h {
                all = false;
            }
            j = j + 1;
        }
        if all {
            assert(group_holds(cfg@, table@, r@, wv[i as int]));
            return true;
        }
        i = i + 1;
    }
    false
}

} // verus!
