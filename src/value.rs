use vstd::prelude::*;

use crate::text::{
    all_digits, chars_of, compare_chars, digit_value, digits_of, digits_value, int_text, is_digit,
    lemma_lex_cmp_antisymmetric, lex_cmp, push_digits, push_int_text,
    string_of, zeros, seq_first_index, lemma_seq_first_index,
};

verus! {

/// The largest number of digits after the decimal point that a `Decimal` keeps.
pub const MAX_SCALE: u32 = 18;

/// An exact decimal number: `mant / 10^scale`, kept in lowest terms
/// (no trailing zero after the point).
#[derive(Clone, Copy, Debug, PartialEq, Eq, Structural)]
pub struct Decimal {
    pub mant: i64,
    pub scale: u32,
}

pub open spec fn pow10(n: nat) -> nat
    decreases n,
{
    if n == 0 { 1 } else { 10 * pow10((n - 1) as nat) }
}

/// Drops trailing zeros after the point; the value stays the same.
pub open spec fn normalize(m: int, sc: nat) -> (int, nat)
    decreases sc,
{
    if sc > 0 && m % 10 == 0 { normalize(m / 10, (sc - 1) as nat) } else { (m, sc) }
}

impl Decimal {
    pub open spec fn wf(self) -> bool {
        &&& self.scale <= MAX_SCALE
        &&& (self.scale > 0 ==> self.mant % 10 != 0)
    }

    /// Three-way comparison by value: the sign of `a - b`.
    pub open spec fn cmp_spec(self, other: Decimal) -> int {
        let l = self.mant * pow10(other.scale as nat);
        let r = other.mant * pow10(self.scale as nat);
        if l < r { -1 } else if l > r { 1 } else { 0 }
    }
}

/// The kinds of value a field holds.
#[derive(Clone, Copy, Debug, PartialEq, Eq, Structural)]
pub enum FieldType {
    Numeric,
    Text,
    Timestamp,
    Boolean,
}

/// A stored value.
#[derive(Debug)]
pub enum Value {
    Numeric(Decimal),
    Text(String),
    Timestamp(i64),
    Boolean(bool),
}

/// What a `Value` holds, as plain mathematical values.
pub enum ValueV {
    Numeric(Decimal),
    Text(Seq<char>),
    Timestamp(int),
    Boolean(bool),
}

impl View for Value {
    type V = ValueV;

    open spec fn view(&self) -> ValueV {
        match self {
            Value::Numeric(d) => ValueV::Numeric(*d),
            Value::Text(s) => ValueV::Text(s@),
            Value::Timestamp(t) => ValueV::Timestamp(*t as int),
            Value::Boolean(b) => ValueV::Boolean(*b),
        }
    }
}

pub open spec fn abs(i: int) -> nat {
    if i < 0 { (-i) as nat } else { i as nat }
}

/// The decimal text of `m / 10^sc`, without trailing zeros beyond what `m` has.
pub open spec fn decimal_text(m: int, sc: nat) -> Seq<char> {
    let sign = if m < 0 { seq!['-'] } else { Seq::<char>::empty() };
    let ds = digits_of(abs(m));
    if sc == 0 {
        sign + ds
    } else if ds.len() > sc {
        sign + ds.subrange(0, ds.len() - sc) + seq!['.'] + ds.subrange(ds.len() - sc, ds.len() as int)
    } else {
        sign + seq!['0', '.'] + zeros((sc - ds.len()) as nat) + ds
    }
}

pub open spec fn true_text() -> Seq<char> {
    seq!['t', 'r', 'u', 'e']
}

pub open spec fn false_text() -> Seq<char> {
    seq!['f', 'a', 'l', 's', 'e']
}

/// The canonical text of a value, used for index keys, equality on literals
/// and textual comparison.
pub open spec fn value_text(v: ValueV) -> Seq<char> {
    match v {
        ValueV::Numeric(d) => decimal_text(d.mant as int, d.scale as nat),
        ValueV::Text(s) => s,
        ValueV::Timestamp(t) => int_text(t),
        ValueV::Boolean(b) => if b { true_text() } else { false_text() },
    }
}

pub open spec fn value_wf(v: ValueV) -> bool {
    match v {
        ValueV::Numeric(d) => d.wf(),
        ValueV::Timestamp(t) => i64::MIN <= t <= i64::MAX,
        _ => true,
    }
}

/// The sign (if any) and the rest of a numeral.
pub open spec fn sign_split(s: Seq<char>) -> (bool, Seq<char>) {
    if s.len() > 0 && s[0] == '-' {
        (true, s.drop_first())
    } else if s.len() > 0 && s[0] == '+' {
        (false, s.drop_first())
    } else {
        (false, s)
    }
}

/// A signed integer numeral in the range of `i64`.
pub open spec fn int_parse(s: Seq<char>) -> Option<int> {
    let (neg, body) = sign_split(s);
    let v = digits_value(body) as int;
    let val = if neg { -v } else { v };
    if body.len() > 0 && all_digits(body) && i64::MIN <= val <= i64::MAX {
        Some(val)
    } else {
        None
    }
}

/// An unsigned mantissa (`digits[.digits]`, at least one digit) whose
/// digits fit an `i64`: the number its digits denote and how many of them
/// follow the point.
pub open spec fn mantissa_parse(body: Seq<char>) -> Option<(nat, nat)> {
    let p = seq_first_index(body, '.');
    let ip = if p < 0 { body } else { body.subrange(0, p) };
    let fp = if p < 0 { Seq::<char>::empty() } else { body.subrange(p + 1, body.len() as int) };
    let v = digits_value(ip + fp);
    if all_digits(ip) && all_digits(fp) && ip.len() + fp.len() > 0 && v <= i64::MAX {
        Some((v, fp.len()))
    } else {
        None
    }
}

pub open spec fn is_exp_mark(c: char) -> bool {
    c == 'e' || c == 'E'
}

/// The position of the first exponent mark, or -1.
pub open spec fn exp_index(body: Seq<char>) -> int {
    seq_first_index(body.map_values(|c: char| is_exp_mark(c)), true)
}

/// `v / 10^sc` (a negative `sc` multiplies) in lowest terms, signed, where
/// it fits a `Decimal`.
pub open spec fn scale_decimal(neg: bool, v: nat, sc: int) -> Option<Decimal> {
    if v == 0 {
        Some(Decimal { mant: 0, scale: 0 })
    } else if sc < 0 {
        let m = v * pow10((-sc) as nat);
        if -sc <= MAX_SCALE && m <= i64::MAX {
            Some(Decimal { mant: (if neg { -(m as int) } else { m as int }) as i64, scale: 0 })
        } else {
            None
        }
    } else {
        let (m, s2) = normalize(v as int, sc as nat);
        if s2 <= MAX_SCALE {
            Some(Decimal { mant: (if neg { -m } else { m }) as i64, scale: s2 as u32 })
        } else {
            None
        }
    }
}

/// A decimal numeral (`[+-]digits[.digits][(e|E)[+-]digits]`, at least one
/// digit in the mantissa), read exactly where its digits fit an `i64` and
/// its value fits a `Decimal`.
pub open spec fn decimal_parse(s: Seq<char>) -> Option<Decimal> {
    let (neg, body) = sign_split(s);
    let q = exp_index(body);
    let mt = if q < 0 { body } else { body.subrange(0, q) };
    let ex = if q < 0 { Some(0int) } else { int_parse(body.subrange(q + 1, body.len() as int)) };
    match (mantissa_parse(mt), ex) {
        (Some((v, f)), Some(e)) => scale_decimal(neg, v, f - e),
        _ => None,
    }
}

/// What a literal becomes in a field of the given type, if it can.
pub open spec fn parse_spec(t: FieldType, s: Seq<char>) -> Option<ValueV> {
    match t {
        FieldType::Numeric => match decimal_parse(s) {
            Some(d) => Some(ValueV::Numeric(d)),
            None => None,
        },
        FieldType::Timestamp => match int_parse(s) {
            Some(i) => Some(ValueV::Timestamp(i)),
            None => None,
        },
        FieldType::Boolean => if s == true_text() {
            Some(ValueV::Boolean(true))
        } else if s == false_text() {
            Some(ValueV::Boolean(false))
        } else {
            None
        },
        FieldType::Text => Some(ValueV::Text(s)),
    }
}

/// Three-way comparison of two optional values under a declared type: typed
/// where both values have the declared type, by canonical text otherwise; a
/// missing value compares as the empty text.
pub open spec fn compare_spec(a: Option<ValueV>, b: Option<ValueV>, t: FieldType) -> int {
    match (a, b) {
        (Some(ValueV::Numeric(x)), Some(ValueV::Numeric(y))) if t == FieldType::Numeric => x.cmp_spec(y),
        (Some(ValueV::Timestamp(x)), Some(ValueV::Timestamp(y))) if t == FieldType::Timestamp =>
            if x < y { -1 } else if x > y { 1 } else { 0 },
        (Some(ValueV::Boolean(x)), Some(ValueV::Boolean(y))) if t == FieldType::Boolean =>
            if !x && y { -1 } else if x && !y { 1 } else { 0 },
        (Some(x), Some(y)) => lex_cmp(value_text(x), value_text(y)),
        (Some(x), None) => lex_cmp(value_text(x), Seq::empty()),
        (None, Some(y)) => lex_cmp(Seq::empty(), value_text(y)),
        (None, None) => 0,
    }
}

pub proof fn lemma_compare_antisymmetric(a: Option<ValueV>, b: Option<ValueV>, t: FieldType)
    ensures
        compare_spec(a, b, t) == -compare_spec(b, a, t),
        -1 <= compare_spec(a, b, t) <= 1,
{
    match (a, b) {
        (Some(x), Some(y)) => lemma_lex_cmp_antisymmetric(value_text(x), value_text(y)),
        (Some(x), None) => lemma_lex_cmp_antisymmetric(value_text(x), Seq::empty()),
        (None, Some(y)) => lemma_lex_cmp_antisymmetric(Seq::empty(), value_text(y)),
        (None, None) => {},
    }
}


proof fn lemma_digits_value_step(s: Seq<char>, i: int)
    requires
        0 <= i < s.len(),
    ensures
        digits_value(s.subrange(0, i + 1)) == digits_value(s.subrange(0, i)) * 10 + digit_value(s[i]),
{
    assert(s.subrange(0, i + 1).drop_last() =~= s.subrange(0, i));
}

proof fn lemma_digits_value_mono(s: Seq<char>, i: int)
    requires
        0 <= i <= s.len(),
    ensures
        digits_value(s.subrange(0, i)) <= digits_value(s),
    decreases s.len() - i,
{
    if i < s.len() {
        lemma_digits_value_step(s, i);
        lemma_digits_value_mono(s, i + 1);
    } else {
        assert(s.subrange(0, i) =~= s);
    }
}

/// The number that the digits `v[from..to]` denote, if it fits a `u64`.
fn parse_digits(v: &Vec<char>, from: usize, to: usize) -> (r: Option<u64>)
    requires
        from <= to <= v@.len(),
        all_digits(v@.subrange(from as int, to as int)),
    ensures
        r == (if digits_value(v@.subrange(from as int, to as int)) <= u64::MAX {
            Some(digits_value(v@.subrange(from as int, to as int)) as u64)
        } else {
            None::<u64>
        }),
{
    let ghost s = v@.subrange(from as int, to as int);
    let mut acc: u64 = 0;
    let mut i: usize = from;
    assert(s.subrange(0, 0) =~= Seq::<char>::empty());
    while i < to
        invariant
            from <= i <= to <= v@.len(),
            s == v@.subrange(from as int, to as int),
            all_digits(s),
            acc as nat == digits_value(s.subrange(0, i - from)),
        decreases to - i,
    {
        let c = v[i];
        assert(c == s[i - from]);
        assert(is_digit(s[i - from]));
        let d: u64 = ((c as u32) - ('0' as u32)) as u64;
        proof {
            lemma_digits_value_step(s, i - from);
        }
        let m = acc.checked_mul(10);
        match m {
            None => {
                proof {
                    lemma_digits_value_mono(s, i - from + 1);
                }
                return None;
            },
            Some(m) => {
                let a = m.checked_add(d);
                match a {
                    None => {
                        proof {
                            lemma_digits_value_mono(s, i - from + 1);
                        }
                        return None;
                    },
                    Some(a) => {
                        acc = a;
                    },
                }
            },
        }
        i = i + 1;
    }
    assert(s.subrange(0, i - from) =~= s);
    Some(acc)
}

/// The index of the first `c` in `v[from..]`, counted from `from`.
pub(crate) fn find_char(v: &Vec<char>, from: usize, c: char) -> (r: Option<usize>)
    requires
        from <= v@.len(),
    ensures
        match r {
            Some(p) => seq_first_index(v@.subrange(from as int, v@.len() as int), c) == p as int,
            None => seq_first_index(v@.subrange(from as int, v@.len() as int), c) == -1,
        },
        r matches Some(p) ==> from + p < v@.len(),
{
    let ghost s = v@.subrange(from as int, v@.len() as int);
    let mut i: usize = from;
    while i < v.len()
        invariant
            from <= i <= v@.len(),
            s == v@.subrange(from as int, v@.len() as int),
            forall|k: int| 0 <= k < i - from ==> s[k] != c,
        decreases v.len() - i,
    {
        if v[i] == c {
            proof {
                lemma_seq_first_index(s, c, i - from);
            }
            return Some(i - from);
        }
        i = i + 1;
    }
    proof {
        lemma_seq_first_index(s, c, s.len() as int);
    }
    None
}

fn all_digits_in(v: &Vec<char>, from: usize, to: usize) -> (r: bool)
    requires
        from <= to <= v@.len(),
    ensures
        r == all_digits(v@.subrange(from as int, to as int)),
{
    let mut i: usize = from;
    while i < to
        invariant
            from <= i <= to <= v@.len(),
            forall|k: int| from <= k < i ==> is_digit(v@[k]),
        decreases to - i,
    {
        if !('0' <= v[i] && v[i] <= '9') {
            assert(v@.subrange(from as int, to as int)[i - from] == v@[i as int]);
            return false;
        }
        i = i + 1;
    }
    assert forall|k: int| 0 <= k < to - from implies is_digit(#[trigger] v@.subrange(from as int, to as int)[k]) by {
        assert(v@.subrange(from as int, to as int)[k] == v@[from + k]);
    }
    true
}

/// Reads a signed integer numeral, as `i64::from_str` does.
pub fn parse_int(s: &str) -> (r: Option<i64>)
    ensures
        match r {
            Some(i) => int_parse(s@) == Some(i as int),
            None => int_parse(s@) is None,
        },
{
    let v = chars_of(s);
    let mut start: usize = 0;
    let mut neg = false;
    if v.len() > 0 && (v[0] == '-' || v[0] == '+') {
        neg = v[0] == '-';
        start = 1;
    }
    let ghost body = v@.subrange(start as int, v@.len() as int);
    assert(sign_split(s@) == (neg, body)) by {
        if start == 1 {
            assert(body =~= s@.drop_first());
        } else {
            assert(body =~= s@);
        }
    }
    if start == v.len() || !all_digits_in(&v, start, v.len()) {
        return None;
    }
    match parse_digits(&v, start, v.len()) {
        None => None,
        Some(m) => {
            if neg {
                if m <= 9223372036854775808u64 {
                    Some((-(m as i128)) as i64)
                } else {
                    None
                }
            } else if m <= 9223372036854775807u64 {
                Some(m as i64)
            } else {
                None
            }
        },
    }
}


/// Appends `src[from..to]`.
pub(crate) fn push_range(out: &mut Vec<char>, src: &Vec<char>, from: usize, to: usize)
    requires
        from <= to <= src@.len(),
    ensures
        final(out)@ == old(out)@ + src@.subrange(from as int, to as int),
{
    let mut i: usize = from;
    while i < to
        invariant
            from <= i <= to <= src@.len(),
            out@ == old(out)@ + src@.subrange(from as int, i as int),
        decreases to - i,
    {
        out.push(src[i]);
        assert(out@ =~= old(out)@ + src@.subrange(from as int, i + 1));
        i = i + 1;
    }
}

/// Appends `n` zero characters.
fn push_zeros(out: &mut Vec<char>, n: usize)
    ensures
        final(out)@ == old(out)@ + zeros(n as nat),
{
    let mut i: usize = 0;
    while i < n
        invariant
            i <= n,
            out@ == old(out)@ + zeros(i as nat),
        decreases n - i,
    {
        out.push('0');
        assert(zeros((i + 1) as nat) == zeros(i as nat).push('0'));
        assert(out@ =~= old(out)@ + zeros((i + 1) as nat));
        i = i + 1;
    }
}

fn signed_decimal(neg: bool, m: u64, sc: u32) -> (r: Decimal)
    requires
        m <= i64::MAX,
        sc <= 18,
        sc > 0 ==> m % 10 != 0,
    ensures
        r == (Decimal { mant: (if neg { -(m as int) } else { m as int }) as i64, scale: sc }),
        r.wf(),
{
    let mant: i64 = if neg { -(m as i64) } else { m as i64 };
    assert(sc > 0 ==> mant % 10 != 0) by {
        if neg && sc > 0 {
            assert((-(m as int)) % 10 != 0) by (nonlinear_arith)
                requires (m as int) % 10 != 0;
        }
    }
    Decimal { mant, scale: sc }
}

/// Reads an unsigned mantissa, as `mantissa_parse` states.
#[verifier::rlimit(40)]
fn parse_mantissa(v: &Vec<char>) -> (r: Option<(u64, usize)>)
    ensures
        match r {
            Some((m, f)) => mantissa_parse(v@) == Some((m as nat, f as nat)) && m <= i64::MAX,
            None => mantissa_parse(v@) is None,
        },
{
    let n = v.len();
    let ghost body = v@;
    assert(v@.subrange(0, n as int) =~= body);
    let dot = find_char(v, 0, '.');
    let (int_end, frac_start): (usize, usize) = match dot {
        Some(p) => (p, p + 1),
        None => (n, n),
    };
    let ghost ip = if dot is None { body } else { body.subrange(0, int_end as int) };
    let ghost fp = if dot is None { Seq::<char>::empty() } else { body.subrange(frac_start as int, body.len() as int) };
    assert(ip =~= v@.subrange(0, int_end as int));
    assert(fp =~= v@.subrange(frac_start as int, n as int));
    if !all_digits_in(v, 0, int_end) || !all_digits_in(v, frac_start, n) {
        return None;
    }
    let frac_len: usize = n - frac_start;
    if int_end + frac_len == 0 {
        return None;
    }
    let mut w: Vec<char> = Vec::new();
    push_range(&mut w, v, 0, int_end);
    push_range(&mut w, v, frac_start, n);
    assert(w@ =~= ip + fp);
    assert(w@.subrange(0, w@.len() as int) =~= w@);
    proof {
        assert forall|k: int| 0 <= k < w@.len() implies is_digit(#[trigger] w@[k]) by {
            if k < ip.len() {
                assert(w@[k] == ip[k]);
            } else {
                assert(w@[k] == fp[k - ip.len()]);
            }
        }
    }
    let len = w.len();
    match parse_digits(&w, 0, len) {
        None => None,
        Some(mag) => {
            if mag > 9223372036854775807u64 {
                return None;
            }
            Some((mag, frac_len))
        },
    }
}

/// Strips trailing zeros after the point, as `normalize` states, for any
/// number of digits after the point.
fn normalize_wide(mag: u64, scale: u128) -> (r: (u64, u128))
    requires
        mag <= i64::MAX,
        mag > 0,
    ensures
        (r.0 as int, r.1 as nat) == normalize(mag as int, scale as nat),
        r.0 <= mag,
        r.1 > 0 ==> r.0 % 10 != 0,
{
    let mut m: u64 = mag;
    let mut sc: u128 = scale;
    while sc > 0 && m % 10 == 0
        invariant
            normalize(m as int, sc as nat) == normalize(mag as int, scale as nat),
            m <= mag,
        decreases sc,
    {
        m = m / 10;
        sc = sc - 1;
    }
    (m, sc)
}

/// `v / 10^(f - e)` as a `Decimal`, as `scale_decimal` states.
fn scale_exec(neg: bool, v: u64, f: usize, e: i64) -> (r: Option<Decimal>)
    requires
        v <= i64::MAX,
    ensures
        r == scale_decimal(neg, v as nat, f as int - e as int),
        r matches Some(d) ==> d.wf(),
{
    if v == 0 {
        return Some(Decimal { mant: 0, scale: 0 });
    }
    let sc: i128 = f as i128 - e as i128;
    if sc < 0 {
        if sc < -18 {
            return None;
        }
        let k: u32 = (-sc) as u32;
        let p = pow10_exec(k);
        assert((v as u128) * (p as u128) <= 9223372036854775807u128 * 1000000000000000000u128) by (nonlinear_arith)
            requires
                v <= 9223372036854775807u64,
                p <= 1000000000000000000u64;
        let prod: u128 = (v as u128) * (p as u128);
        if prod > 9223372036854775807u128 {
            return None;
        }
        let m: u64 = prod as u64;
        let mant: i64 = if neg { -(m as i64) } else { m as i64 };
        Some(Decimal { mant, scale: 0 })
    } else {
        let (m, s2) = normalize_wide(v, sc as u128);
        if s2 > 18 {
            return None;
        }
        Some(signed_decimal(neg, m, s2 as u32))
    }
}

fn is_exp_mark_exec(c: char) -> (r: bool)
    ensures
        r == is_exp_mark(c),
{
    c == 'e' || c == 'E'
}

/// Reads a decimal numeral (`[+-]digits[.digits][(e|E)[+-]digits]`) exactly.
#[verifier::rlimit(40)]
pub fn parse_decimal(s: &str) -> (r: Option<Decimal>)
    ensures
        r == decimal_parse(s@),
        r matches Some(d) ==> d.wf(),
{
    let v = chars_of(s);
    let n = v.len();
    let mut start: usize = 0;
    let mut neg = false;
    if n > 0 && (v[0] == '-' || v[0] == '+') {
        neg = v[0] == '-';
        start = 1;
    }
    let ghost body = v@.subrange(start as int, n as int);
    assert(sign_split(s@) == (neg, body)) by {
        if start == 1 {
            assert(body =~= s@.drop_first());
        } else {
            assert(body =~= s@);
        }
    }
    let ghost marks = body.map_values(|c: char| is_exp_mark(c));
    let mut q: usize = start;
    while q < n && !is_exp_mark_exec(v[q])
        invariant
            start <= q <= n,
            n == v@.len(),
            body == v@.subrange(start as int, n as int),
            marks == body.map_values(|c: char| is_exp_mark(c)),
            forall|k: int| 0 <= k < q - start ==> marks[k] != true,
        decreases n - q,
    {
        assert(marks[q - start] == is_exp_mark(v@[q as int]));
        q = q + 1;
    }
    proof {
        if q < n {
            assert(marks[q - start] == is_exp_mark(v@[q as int]));
        }
        crate::text::lemma_seq_first_index(marks, true, q - start);
    }
    let mut mv: Vec<char> = Vec::new();
    push_range(&mut mv, &v, start, q);
    let e: i64 = if q < n {
        let mut ev: Vec<char> = Vec::new();
        push_range(&mut ev, &v, q + 1, n);
        assert(ev@ =~= body.subrange(q - start + 1, body.len() as int));
        let es = string_of(&ev);
        match parse_int(es.as_str()) {
            Some(x) => x,
            None => {
                return None;
            },
        }
    } else {
        0
    };
    assert(mv@ =~= (if q < n { body.subrange(0, q - start) } else { body }));
    match parse_mantissa(&mv) {
        None => None,
        Some((m, f)) => scale_exec(neg, m, f, e),
    }
}

/// Appends the canonical text of a decimal.
fn push_decimal_text(d: Decimal, out: &mut Vec<char>)
    ensures
        final(out)@ == old(out)@ + decimal_text(d.mant as int, d.scale as nat),
{
    let ghost sign = if d.mant < 0 { seq!['-'] } else { Seq::<char>::empty() };
    if d.mant < 0 {
        out.push('-');
    }
    let mag: u64 = if d.mant < 0 { (-(d.mant as i128)) as u64 } else { d.mant as u64 };
    let mut ds: Vec<char> = Vec::new();
    push_digits(mag, &mut ds);
    assert(ds@ =~= digits_of(abs(d.mant as int)));
    let n = ds.len();
    let sc = d.scale as usize;
    let ghost before = old(out)@ + sign;
    assert(out@ =~= before);
    if sc == 0 {
        push_range(out, &ds, 0, n);
        assert(ds@.subrange(0, n as int) =~= ds@);
        assert(out@ =~= old(out)@ + decimal_text(d.mant as int, d.scale as nat));
    } else if n > sc {
        push_range(out, &ds, 0, n - sc);
        out.push('.');
        push_range(out, &ds, n - sc, n);
        assert(out@ =~= old(out)@ + decimal_text(d.mant as int, d.scale as nat));
    } else {
        out.push('0');
        out.push('.');
        push_zeros(out, sc - n);
        push_range(out, &ds, 0, n);
        assert(ds@.subrange(0, n as int) =~= ds@);
        assert(out@ =~= old(out)@ + decimal_text(d.mant as int, d.scale as nat));
    }
}


pub(crate) proof fn lemma_pow10_pos(n: nat)
    ensures
        pow10(n) >= 1,
    decreases n,
{
    if n > 0 {
        lemma_pow10_pos((n - 1) as nat);
    }
}

proof fn lemma_pow10_mono(a: nat, b: nat)
    requires
        a <= b,
    ensures
        pow10(a) <= pow10(b),
        pow10(a) >= 1,
    decreases b,
{
    lemma_pow10_pos(a);
    if a < b {
        lemma_pow10_mono(a, (b - 1) as nat);
    }
}

pub(crate) fn pow10_exec(n: u32) -> (r: u64)
    requires
        n <= 18,
    ensures
        r as nat == pow10(n as nat),
        r <= 1000000000000000000,
{
    proof {
        reveal_with_fuel(pow10, 19);
        lemma_pow10_mono(n as nat, 18);
    }
    let mut r: u64 = 1;
    let mut i: u32 = 0;
    while i < n
        invariant
            i <= n <= 18,
            r as nat == pow10(i as nat),
            pow10(n as nat) <= 1000000000000000000,
        decreases n - i,
    {
        proof {
            lemma_pow10_mono((i + 1) as nat, n as nat);
        }
        r = r * 10;
        i = i + 1;
    }
    r
}

impl Decimal {
    /// Three-way comparison by value.
    pub fn compare(&self, other: &Decimal) -> (r: i8)
        requires
            self.wf(),
            other.wf(),
        ensures
            r as int == self.cmp_spec(*other),
    {
        let pa = pow10_exec(other.scale);
        let pb = pow10_exec(self.scale);
        let a = self.mant as i128;
        let b = other.mant as i128;
        assert(-100000000000000000000000000000000000000 < a * (pa as i128) < 100000000000000000000000000000000000000) by (nonlinear_arith)
            requires
                -9223372036854775808 <= a <= 9223372036854775807,
                0 <= pa <= 1000000000000000000;
        assert(-100000000000000000000000000000000000000 < b * (pb as i128) < 100000000000000000000000000000000000000) by (nonlinear_arith)
            requires
                -9223372036854775808 <= b <= 9223372036854775807,
                0 <= pb <= 1000000000000000000;
        let l = a * (pa as i128);
        let r = b * (pb as i128);
        if l < r {
            -1
        } else if l > r {
            1
        } else {
            0
        }
    }
}

impl Value {
    /// The canonical text of the value.
    pub fn text(&self) -> (r: String)
        ensures
            r@ == value_text(self@),
    {
        match self {
            Value::Text(s) => s.clone(),
            _ => {
                let mut out: Vec<char> = Vec::new();
                self.push_text(&mut out);
                assert(out@ =~= value_text(self@));
                string_of(&out)
            },
        }
    }

    /// Appends the canonical text of the value.
    pub fn push_text(&self, out: &mut Vec<char>)
        ensures
            final(out)@ == old(out)@ + value_text(self@),
    {
        match self {
            Value::Numeric(d) => push_decimal_text(*d, out),
            Value::Text(s) => {
                let v = chars_of(s.as_str());
                push_range(out, &v, 0, v.len());
                assert(v@.subrange(0, v@.len() as int) =~= v@);
            },
            Value::Timestamp(t) => push_int_text(*t, out),
            Value::Boolean(b) => {
                if *b {
                    out.push('t');
                    out.push('r');
                    out.push('u');
                    out.push('e');
                } else {
                    out.push('f');
                    out.push('a');
                    out.push('l');
                    out.push('s');
                    out.push('e');
                }
                assert(final(out)@ =~= old(out)@ + value_text(self@));
            },
        }
    }

    /// A copy of the value.
    pub fn copy(&self) -> (r: Value)
        ensures
            r@ == self@,
    {
        match self {
            Value::Numeric(d) => Value::Numeric(*d),
            Value::Text(s) => Value::Text(s.clone()),
            Value::Timestamp(t) => Value::Timestamp(*t),
            Value::Boolean(b) => Value::Boolean(*b),
        }
    }

    /// Whether two values are the same value of the same kind.
    pub fn same(&self, other: &Value) -> (r: bool)
        ensures
            r == (self@ == other@),
    {
        match (self, other) {
            (Value::Numeric(a), Value::Numeric(b)) => a.mant == b.mant && a.scale == b.scale,
            (Value::Text(a), Value::Text(b)) => {
                a.eq(b)
            },
            (Value::Timestamp(a), Value::Timestamp(b)) => a == b,
            (Value::Boolean(a), Value::Boolean(b)) => a == b,
            _ => false,
        }
    }

    /// Reads a literal as a value of the given type, if it is one.
    pub fn parse_as(t: FieldType, s: &str) -> (r: Option<Value>)
        ensures
            match r {
                Some(v) => parse_spec(t, s@) == Some(v@),
                None => parse_spec(t, s@) is None,
            },
            r matches Some(v) ==> value_wf(v@),
    {
        match t {
            FieldType::Numeric => match parse_decimal(s) {
                Some(d) => Some(Value::Numeric(d)),
                None => None,
            },
            FieldType::Timestamp => match parse_int(s) {
                Some(i) => Some(Value::Timestamp(i)),
                None => None,
            },
            FieldType::Boolean => {
                let v = chars_of(s);
                if v.len() == 4 && v[0] == 't' && v[1] == 'r' && v[2] == 'u' && v[3] == 'e' {
                    assert(s@ =~= true_text());
                    Some(Value::Boolean(true))
                } else if v.len() == 5 && v[0] == 'f' && v[1] == 'a' && v[2] == 'l' && v[3] == 's'
                    && v[4] == 'e' {
                    assert(s@ =~= false_text());
                    Some(Value::Boolean(false))
                } else {
                    assert(s@ != true_text()) by {
                        if s@ == true_text() {
                            assert(v@[0] == 't' && v@[1] == 'r' && v@[2] == 'u' && v@[3] == 'e');
                        }
                    }
                    assert(s@ != false_text()) by {
                        if s@ == false_text() {
                            assert(v@[0] == 'f' && v@[1] == 'a' && v@[2] == 'l' && v@[3] == 's' && v@[4] == 'e');
                        }
                    }
                    None
                }
            },
            FieldType::Text => Some(Value::Text(s.to_string())),
        }
    }
}

/// Three-way comparison of two optional values under a declared type, as
/// `compare_spec` states.
pub fn compare_values(a: Option<&Value>, b: Option<&Value>, t: FieldType) -> (r: i8)
    requires
        a matches Some(x) ==> value_wf(x@),
        b matches Some(y) ==> value_wf(y@),
    ensures
        r as int == compare_spec(
            match a { Some(x) => Some(x@), None => None },
            match b { Some(y) => Some(y@), None => None },
            t,
        ),
{
    match (a, b) {
        (Some(Value::Numeric(x)), Some(Value::Numeric(y))) if t == FieldType::Numeric => x.compare(y),
        (Some(Value::Timestamp(x)), Some(Value::Timestamp(y))) if t == FieldType::Timestamp => {
            if *x < *y { -1 } else if *x > *y { 1 } else { 0 }
        },
        (Some(Value::Boolean(x)), Some(Value::Boolean(y))) if t == FieldType::Boolean => {
            if !*x && *y { -1 } else if *x && !*y { 1 } else { 0 }
        },
        (Some(x), Some(y)) => {
            let mut ta: Vec<char> = Vec::new();
            x.push_text(&mut ta);
            let mut tb: Vec<char> = Vec::new();
            y.push_text(&mut tb);
            assert(ta@ =~= value_text(x@));
            assert(tb@ =~= value_text(y@));
            compare_chars(&ta, &tb)
        },
        (Some(x), None) => {
            let mut ta: Vec<char> = Vec::new();
            x.push_text(&mut ta);
            assert(ta@ =~= value_text(x@));
            let tb: Vec<char> = Vec::new();
            compare_chars(&ta, &tb)
        },
        (None, Some(y)) => {
            let ta: Vec<char> = Vec::new();
            let mut tb: Vec<char> = Vec::new();
            y.push_text(&mut tb);
            assert(tb@ =~= value_text(y@));
            compare_chars(&ta, &tb)
        },
        (None, None) => 0,
    }
}

} // verus!
