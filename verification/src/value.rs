//! The value calculus domain.
//!
//! [`Value`] is the in-memory model the expression evaluator and format
//! conversion operate over: its truthiness, its total order, and its
//! rendering as text and as JSON.
use crate::float::{below, double_of, float_below, float_text, format_float, nearest_double, Float};
use crate::model::{group_value_views, members, vals};
use crate::seqs::{
    char_rank, insert_at, int_rank, joined, joined_step, lex_rank, sort_with, str_rank, Rank,
};
use crate::strs::{chars_of, code, int_digits, int_text};
use std::cmp::Ordering;
use vstd::prelude::*;
use vstd::string::*;

pub use crate::model::{texts, Val, Value};

verus! {

broadcast use group_value_views;

/// A copy of the elements.
pub fn clone_values(a: &Vec<Value>) -> (r: Vec<Value>)
    ensures
        vals(r@) == vals(a@),
    decreases a,
{
    let mut out: Vec<Value> = Vec::new();
    let mut i: usize = 0;
    while i < a.len()
        invariant
            i <= a.len(),
            vals(out@) == vals(a@).take(i as int),
        decreases a.len() - i,
    {
        out.push(a[i].clone());
        assert(vals(out@) =~= vals(a@).take(i + 1));
        i = i + 1;
    }
    assert(vals(a@).take(i as int) =~= vals(a@));
    out
}

/// A copy of the members.
pub fn clone_members(m: &Vec<(String, Value)>) -> (r: Vec<(String, Value)>)
    ensures
        members(r@) == members(m@),
    decreases m,
{
    let mut out: Vec<(String, Value)> = Vec::new();
    let mut i: usize = 0;
    while i < m.len()
        invariant
            i <= m.len(),
            members(out@) == members(m@).take(i as int),
        decreases m.len() - i,
    {
        out.push((m[i].0.clone(), m[i].1.clone()));
        assert(members(out@) =~= members(m@).take(i + 1));
        i = i + 1;
    }
    assert(members(m@).take(i as int) =~= members(m@));
    out
}

impl Clone for Value {
    fn clone(&self) -> (r: Value)
        ensures
            r@ == self@,
        decreases self,
    {
        match self {
            Value::Null => Value::Null,
            Value::Bool(b) => Value::Bool(*b),
            Value::Int(i) => Value::Int(*i),
            Value::Float(f) => Value::Float(f.clone()),
            Value::Str(s) => Value::Str(s.clone()),
            Value::Array(a) => Value::Array(clone_values(a)),
            Value::Object(m) => Value::Object(clone_members(m)),
        }
    }
}

/// jq-style truthiness: only `false` and `null` are falsy.
pub open spec fn truthy(v: Val) -> bool {
    !(v is Null) && v != Val::Bool(false)
}

/// The type name, as reported by the `type` builtin.
pub open spec fn type_text(v: Val) -> Seq<char> {
    match v {
        Val::Null => "null"@,
        Val::Bool(_) => "boolean"@,
        Val::Int(_) => "number"@,
        Val::Float(_) => "number"@,
        Val::Str(_) => "string"@,
        Val::Array(_) => "array"@,
        Val::Object(_) => "object"@,
    }
}

/// The bits of the double a number is compared and computed as.
pub open spec fn num_bits(v: Val) -> Option<u64> {
    match v {
        Val::Int(i) => Some(nearest_double(i)),
        Val::Float(f) => Some(f.bits),
        _ => None,
    }
}

/// The place of a type in jq's order.
pub open spec fn type_rank(v: Val) -> int {
    match v {
        Val::Null => 0,
        Val::Bool(_) => 1,
        Val::Int(_) => 2,
        Val::Float(_) => 2,
        Val::Str(_) => 3,
        Val::Array(_) => 4,
        Val::Object(_) => 5,
    }
}

/// Numeric comparison; `NaN` is level with everything.
pub open spec fn bits_rank(a: u64, b: u64) -> Rank {
    if float_below(a, b) {
        Rank::Below
    } else if float_below(b, a) {
        Rank::Above
    } else {
        Rank::Level
    }
}

/// The keys of an object, in order.
pub open spec fn key_list(m: Seq<(Seq<char>, Val)>) -> Seq<Seq<char>> {
    Seq::new(m.len(), |i: int| m[i].0)
}

/// Strings in code point order, as a comparison.
pub open spec fn by_text() -> spec_fn(Seq<char>, Seq<char>) -> Rank {
    |a: Seq<char>, b: Seq<char>| str_rank(a, b)
}

/// The keys of an object, sorted.
pub open spec fn sorted_keys(m: Seq<(Seq<char>, Val)>) -> Seq<Seq<char>> {
    sort_with(key_list(m), by_text())
}

/// The first position at or after `i` whose key is `k`, or the length.
pub open spec fn key_from(m: Seq<(Seq<char>, Val)>, k: Seq<char>, i: int) -> int
    decreases m.len() - i,
{
    if i >= m.len() {
        m.len() as int
    } else if m[i].0 == k {
        i
    } else {
        key_from(m, k, i + 1)
    }
}

/// The first position whose key is `k`, or the length.
pub open spec fn key_at(m: Seq<(Seq<char>, Val)>, k: Seq<char>) -> int {
    key_from(m, k, 0)
}

/// The value of the first member with key `k`.
pub open spec fn get_key(m: Seq<(Seq<char>, Val)>, k: Seq<char>) -> Option<Val> {
    let i = key_at(m, k);
    if 0 <= i < m.len() {
        Some(m[i].1)
    } else {
        None
    }
}

/// The first comparison that is not level.
pub open spec fn first_unlevel(s: Seq<Rank>, i: int) -> Rank
    decreases s.len() - i,
{
    if i >= s.len() {
        Rank::Level
    } else if s[i] != Rank::Level {
        s[i]
    } else {
        first_unlevel(s, i + 1)
    }
}

/// Total order across types (jq's ordering: null < bool < number < string <
/// array < object). Arrays compare element by element; objects by their sorted
/// keys, then by the values at those keys.
pub open spec fn val_rank(a: Val, b: Val) -> Rank
    decreases a, 1int,
{
    match (a, b) {
        (Val::Null, Val::Null) => Rank::Level,
        (Val::Bool(x), Val::Bool(y)) => int_rank(
            if x {
                1
            } else {
                0
            },
            if y {
                1
            } else {
                0
            },
        ),
        (Val::Str(x), Val::Str(y)) => str_rank(x, y),
        (Val::Array(x), Val::Array(y)) => {
            let r = first_unlevel(array_ranks(x, y), 0);
            if r != Rank::Level {
                r
            } else {
                int_rank(x.len() as int, y.len() as int)
            }
        },
        (Val::Object(x), Val::Object(y)) => {
            let r = lex_rank(sorted_keys(x), sorted_keys(y), by_text(), 0);
            if r != Rank::Level {
                r
            } else {
                first_unlevel(object_ranks(x, y), 0)
            }
        },
        _ => match (num_bits(a), num_bits(b)) {
            (Some(x), Some(y)) => bits_rank(x, y),
            _ => int_rank(type_rank(a), type_rank(b)),
        },
    }
}

/// The comparisons of the elements at the positions both arrays have.
pub open spec fn array_ranks(x: Seq<Val>, y: Seq<Val>) -> Seq<Rank>
    decreases x, 0int,
{
    Seq::new(
        if x.len() < y.len() {
            x.len()
        } else {
            y.len()
        },
        |i: int|
            if 0 <= i < x.len() {
                val_rank(x[i], y[i])
            } else {
                Rank::Level
            },
    )
}

/// The comparisons of the values at `x`'s sorted keys.
pub open spec fn object_ranks(x: Seq<(Seq<char>, Val)>, y: Seq<(Seq<char>, Val)>) -> Seq<Rank>
    decreases x, 0int,
{
    Seq::new(
        sorted_keys(x).len(),
        |i: int|
            {
                let p = key_at(x, sorted_keys(x)[i]);
                let q = key_at(y, sorted_keys(x)[i]);
                if 0 <= p < x.len() && 0 <= q < y.len() {
                    val_rank(x[p].1, y[q].1)
                } else {
                    Rank::Level
                }
            },
    )
}

/// Compare two texts by code point.
pub fn rank_texts(a: &str, b: &str) -> (r: Rank)
    ensures
        r == str_rank(a@, b@),
{
    let x = chars_of(a);
    let y = chars_of(b);
    let mut i: usize = 0;
    while i < x.len() && i < y.len()
        invariant
            i <= x.len(),
            i <= y.len(),
            x@ == a@,
            y@ == b@,
            lex_rank(x@, y@, char_rank(), 0) == lex_rank(x@, y@, char_rank(), i as int),
        decreases x.len() - i,
    {
        if x[i] < y[i] {
            return Rank::Below;
        }
        if x[i] > y[i] {
            return Rank::Above;
        }
        i = i + 1;
    }
    if x.len() < y.len() {
        Rank::Below
    } else if x.len() > y.len() {
        Rank::Above
    } else {
        Rank::Level
    }
}

/// The keys of an object, sorted.
pub fn keys_sorted(m: &Vec<(String, Value)>) -> (r: Vec<String>)
    ensures
        texts(r@) == sorted_keys(members(m@)),
{
    let mut out: Vec<String> = Vec::new();
    let ghost ks = key_list(members(m@));
    let mut i: usize = 0;
    while i < m.len()
        invariant
            i <= m.len(),
            ks == key_list(members(m@)),
            texts(out@) == sort_with(ks.take(i as int), by_text()),
            out.len() == i,
        decreases m.len() - i,
    {
        let mut p: usize = out.len();
        while p > 0 && rank_texts(&out[p - 1], &m[i].0) == Rank::Above
            invariant
                p <= out.len(),
                i < m.len(),
                forall|j: int|
                    p <= j < out.len() ==> str_rank(#[trigger] texts(out@)[j], m@[i as int].0@)
                        == Rank::Above,
            decreases p,
        {
            p = p - 1;
        }
        proof {
            assert(ks.take(i + 1).drop_last() =~= ks.take(i as int));
            assert(ks.take(i + 1).last() == m@[i as int].0@);
            insert_at(texts(out@), m@[i as int].0@, by_text(), p as int);
        }
        let ghost before = texts(out@);
        out.insert(p, m[i].0.clone());
        assert(texts(out@) =~= before.insert(p as int, m@[i as int].0@));
        i = i + 1;
    }
    assert(ks.take(i as int) =~= ks);
    out
}

/// The first position whose key is `k`, or the length.
pub fn find_key(m: &Vec<(String, Value)>, k: &str) -> (r: usize)
    ensures
        r == key_at(members(m@), k@),
        r <= m.len(),
        r < m.len() ==> m@[r as int].0@ == k@,
{
    let mut i: usize = 0;
    while i < m.len()
        invariant
            i <= m.len(),
            key_from(members(m@), k@, 0) == key_from(members(m@), k@, i as int),
        decreases m.len() - i,
    {
        if crate::strs::same(&m[i].0, k) {
            return i;
        }
        i = i + 1;
    }
    i
}

/// The key position is in range exactly when the key is there.
pub proof fn key_at_bounds(m: Seq<(Seq<char>, Val)>, k: Seq<char>)
    ensures
        0 <= key_at(m, k) <= m.len(),
        key_at(m, k) < m.len() ==> m[key_at(m, k)].0 == k,
        key_at(m, k) == m.len() ==> forall|i: int| 0 <= i < m.len() ==> #[trigger] m[i].0 != k,
{
    key_from_bounds(m, k, 0);
}

proof fn key_from_bounds(m: Seq<(Seq<char>, Val)>, k: Seq<char>, i: int)
    requires
        0 <= i <= m.len(),
    ensures
        i <= key_from(m, k, i) <= m.len(),
        key_from(m, k, i) < m.len() ==> m[key_from(m, k, i)].0 == k,
        forall|j: int| i <= j < key_from(m, k, i) ==> #[trigger] m[j].0 != k,
    decreases m.len() - i,
{
    if i < m.len() && m[i].0 != k {
        key_from_bounds(m, k, i + 1);
    }
}

fn rank_nat(a: usize, b: usize) -> (r: Rank)
    ensures
        r == int_rank(a as int, b as int),
{
    if a < b {
        Rank::Below
    } else if a > b {
        Rank::Above
    } else {
        Rank::Level
    }
}

fn rank_bits(a: u64, b: u64) -> (r: Rank)
    ensures
        r == bits_rank(a, b),
{
    if below(a, b) {
        Rank::Below
    } else if below(b, a) {
        Rank::Above
    } else {
        Rank::Level
    }
}

fn rank_keys(a: &Vec<String>, b: &Vec<String>) -> (r: Rank)
    ensures
        r == lex_rank(texts(a@), texts(b@), by_text(), 0),
{
    let mut i: usize = 0;
    while i < a.len() && i < b.len()
        invariant
            i <= a.len(),
            i <= b.len(),
            lex_rank(texts(a@), texts(b@), by_text(), 0) == lex_rank(
                texts(a@),
                texts(b@),
                by_text(),
                i as int,
            ),
        decreases a.len() - i,
    {
        let r = rank_texts(&a[i], &b[i]);
        if r != Rank::Level {
            return r;
        }
        i = i + 1;
    }
    rank_nat(a.len(), b.len())
}

fn rank_arrays(x: &Vec<Value>, y: &Vec<Value>) -> (r: Rank)
    ensures
        r == val_rank(Val::Array(vals(x@)), Val::Array(vals(y@))),
    decreases x, 0int,
{
    let n: usize = if x.len() < y.len() {
        x.len()
    } else {
        y.len()
    };
    let ghost ranks = array_ranks(vals(x@), vals(y@));
    let mut i: usize = 0;
    while i < n
        invariant
            i <= n,
            n <= x.len(),
            n <= y.len(),
            n == (if x.len() < y.len() {
                x.len()
            } else {
                y.len()
            }),
            ranks == array_ranks(vals(x@), vals(y@)),
            first_unlevel(ranks, 0) == first_unlevel(ranks, i as int),
        decreases n - i,
    {
        let r = x[i].rank(&y[i]);
        if r != Rank::Level {
            return r;
        }
        i = i + 1;
    }
    rank_nat(x.len(), y.len())
}

fn rank_objects(x: &Vec<(String, Value)>, y: &Vec<(String, Value)>) -> (r: Rank)
    ensures
        r == val_rank(Val::Object(members(x@)), Val::Object(members(y@))),
    decreases x, 0int,
{
    let ka = keys_sorted(x);
    let kb = keys_sorted(y);
    let outer = rank_keys(&ka, &kb);
    if outer != Rank::Level {
        return outer;
    }
    let ghost mx = members(x@);
    let ghost my = members(y@);
    let ghost ks = sorted_keys(mx);
    let ghost ranks = object_ranks(mx, my);
    let mut i: usize = 0;
    while i < ka.len()
        invariant
            i <= ka.len(),
            mx == members(x@),
            my == members(y@),
            ks == sorted_keys(mx),
            texts(ka@) == ks,
            ranks == object_ranks(mx, my),
            first_unlevel(ranks, 0) == first_unlevel(ranks, i as int),
            first_unlevel(ranks, 0) == val_rank(Val::Object(mx), Val::Object(my)),
        decreases ka.len() - i,
    {
        let p = find_key(x, &ka[i]);
        let q = find_key(y, &ka[i]);
        assert(ks[i as int] == ka@[i as int]@);
        if p < x.len() && q < y.len() {
            let r = x[p].1.rank(&y[q].1);
            assert(ranks[i as int] == r);
            if r != Rank::Level {
                return r;
            }
        } else {
            assert(ranks[i as int] == Rank::Level);
        }
        i = i + 1;
    }
    Rank::Level
}

impl Value {
    /// jq-style truthiness: only `false` and `null` are falsy.
    pub fn is_truthy(&self) -> (r: bool)
        ensures
            r == truthy(self@),
    {
        match self {
            Value::Null => false,
            Value::Bool(b) => *b,
            _ => true,
        }
    }

    /// The type name, as reported by the `type` builtin.
    pub fn type_label(&self) -> (r: &'static str)
        ensures
            r@ == type_text(self@),
    {
        match self {
            Value::Null => "null",
            Value::Bool(_) => "boolean",
            Value::Int(_) => "number",
            Value::Float(_) => "number",
            Value::Str(_) => "string",
            Value::Array(_) => "array",
            Value::Object(_) => "object",
        }
    }

    /// The bits of the double a number is compared and computed as.
    pub fn as_double(&self) -> (r: Option<u64>)
        ensures
            r == num_bits(self@),
    {
        match self {
            Value::Int(i) => Some(double_of(*i)),
            Value::Float(f) => Some(f.bits),
            _ => None,
        }
    }

    fn type_place(&self) -> (r: usize)
        ensures
            r == type_rank(self@),
    {
        match self {
            Value::Null => 0,
            Value::Bool(_) => 1,
            Value::Int(_) => 2,
            Value::Float(_) => 2,
            Value::Str(_) => 3,
            Value::Array(_) => 4,
            Value::Object(_) => 5,
        }
    }

    /// How `self` compares to `other` in the total order across types.
    pub fn rank(&self, other: &Value) -> (r: Rank)
        ensures
            r == val_rank(self@, other@),
        decreases self, 1int,
    {
        match (self, other) {
            (Value::Null, Value::Null) => Rank::Level,
            (Value::Bool(a), Value::Bool(b)) => if *a == *b {
                Rank::Level
            } else if *b {
                Rank::Below
            } else {
                Rank::Above
            },
            (Value::Str(a), Value::Str(b)) => rank_texts(a, b),
            (Value::Array(a), Value::Array(b)) => rank_arrays(a, b),
            (Value::Object(a), Value::Object(b)) => rank_objects(a, b),
            _ => match (self.as_double(), other.as_double()) {
                (Some(a), Some(b)) => rank_bits(a, b),
                _ => rank_nat(self.type_place(), other.type_place()),
            },
        }
    }

    /// Total order across types (jq's ordering: null < bool < number < string
    /// < array < object).
    pub fn order(&self, other: &Value) -> (r: Ordering)
        ensures
            r == (match val_rank(self@, other@) {
                Rank::Below => Ordering::Less,
                Rank::Level => Ordering::Equal,
                Rank::Above => Ordering::Greater,
            }),
    {
        match self.rank(other) {
            Rank::Below => Ordering::Less,
            Rank::Level => Ordering::Equal,
            Rank::Above => Ordering::Greater,
        }
    }

    /// Are the two values the same, numbers of one type included? Unlike
    /// [`Value::value_eq`], `1` is not `1.0`, and members are in one order.
    pub fn identical(&self, other: &Value) -> (r: bool)
        ensures
            r == (self@ == other@),
        decreases self, 1int,
    {
        match (self, other) {
            (Value::Null, Value::Null) => true,
            (Value::Bool(a), Value::Bool(b)) => *a == *b,
            (Value::Int(a), Value::Int(b)) => *a == *b,
            (Value::Float(a), Value::Float(b)) => a.bits == b.bits && crate::strs::same(
                &a.text,
                &b.text,
            ),
            (Value::Str(a), Value::Str(b)) => crate::strs::same(a, b),
            (Value::Array(a), Value::Array(b)) => same_items(a, b),
            (Value::Object(a), Value::Object(b)) => same_members(a, b),
            _ => false,
        }
    }

    /// Equality consistent with the total order, so `1` equals `1.0`.
    pub fn value_eq(&self, other: &Value) -> (r: bool)
        ensures
            r == (val_rank(self@, other@) == Rank::Level),
    {
        self.rank(other) == Rank::Level
    }
}

fn same_items(a: &Vec<Value>, b: &Vec<Value>) -> (r: bool)
    ensures
        r == (vals(a@) == vals(b@)),
    decreases a, 0int,
{
    if a.len() != b.len() {
        assert(vals(a@).len() != vals(b@).len());
        return false;
    }
    let mut i: usize = 0;
    while i < a.len()
        invariant
            i <= a.len() == b.len(),
            forall|j: int| 0 <= j < i ==> #[trigger] vals(a@)[j] == vals(b@)[j],
        decreases a.len() - i,
    {
        assert(vals(a@)[i as int] == a@[i as int]@);
        assert(vals(b@)[i as int] == b@[i as int]@);
        if !a[i].identical(&b[i]) {
            return false;
        }
        i = i + 1;
    }
    assert(vals(a@) =~= vals(b@));
    true
}

fn same_members(a: &Vec<(String, Value)>, b: &Vec<(String, Value)>) -> (r: bool)
    ensures
        r == (members(a@) == members(b@)),
    decreases a, 0int,
{
    if a.len() != b.len() {
        assert(members(a@).len() != members(b@).len());
        return false;
    }
    let mut i: usize = 0;
    while i < a.len()
        invariant
            i <= a.len() == b.len(),
            forall|j: int| 0 <= j < i ==> #[trigger] members(a@)[j] == members(b@)[j],
        decreases a.len() - i,
    {
        assert(members(a@)[i as int] == (a@[i as int].0@, a@[i as int].1@));
        assert(members(b@)[i as int] == (b@[i as int].0@, b@[i as int].1@));
        if !crate::strs::same(&a[i].0, &b[i].0) || !a[i].1.identical(&b[i].1) {
            return false;
        }
        i = i + 1;
    }
    assert(members(a@) =~= members(b@));
    true
}

/// A lower-case hexadecimal digit.
pub open spec fn hex_digit(d: int) -> char {
    if d < 10 {
        (48 + d) as char
    } else {
        (87 + d) as char
    }
}

/// A character as it stands in a JSON string.
pub open spec fn json_char(c: char) -> Seq<char> {
    if c == '"' {
        seq!['\\', '"']
    } else if c == '\\' {
        seq!['\\', '\\']
    } else if c == '\n' {
        seq!['\\', 'n']
    } else if c == '\r' {
        seq!['\\', 'r']
    } else if c == '\t' {
        seq!['\\', 't']
    } else if (c as int) < 0x20 {
        seq!['\\', 'u', '0', '0', hex_digit(c as int / 16), hex_digit(c as int % 16)]
    } else {
        seq![c]
    }
}

/// The characters of a JSON string between its quotes.
pub open spec fn json_body(s: Seq<char>) -> Seq<char>
    decreases s.len(),
{
    if s.len() == 0 {
        Seq::empty()
    } else {
        json_body(s.drop_last()) + json_char(s.last())
    }
}

/// A string as a JSON string literal.
pub open spec fn json_string(s: Seq<char>) -> Seq<char> {
    seq!['"'] + json_body(s) + seq!['"']
}

/// The elements of an array as compact JSON.
pub open spec fn json_items(a: Seq<Val>) -> Seq<Seq<char>>
    decreases a, 0int,
{
    Seq::new(
        a.len(),
        |i: int|
            if 0 <= i < a.len() {
                json_text(a[i])
            } else {
                Seq::empty()
            },
    )
}

/// The members of an object as compact JSON.
pub open spec fn json_members(m: Seq<(Seq<char>, Val)>) -> Seq<Seq<char>>
    decreases m, 0int,
{
    Seq::new(
        m.len(),
        |i: int|
            if 0 <= i < m.len() {
                json_string(m[i].0) + seq![':'] + json_text(m[i].1)
            } else {
                Seq::empty()
            },
    )
}

/// A value as compact JSON.
pub open spec fn json_text(v: Val) -> Seq<char>
    decreases v, 1int,
{
    match v {
        Val::Null => "null"@,
        Val::Bool(b) => if b {
            "true"@
        } else {
            "false"@
        },
        Val::Int(i) => int_digits(i as int),
        Val::Float(f) => float_text(f),
        Val::Str(s) => json_string(s),
        Val::Array(a) => seq!['['] + joined(json_items(a), seq![',']) + seq![']'],
        Val::Object(m) => seq!['{'] + joined(json_members(m), seq![',']) + seq!['}'],
    }
}

/// A value as query output: a string bare, anything else as JSON.
pub open spec fn raw_text(v: Val) -> Seq<char> {
    match v {
        Val::Str(s) => s,
        _ => json_text(v),
    }
}

fn push_hex(out: &mut String, d: u32)
    requires
        d < 16,
    ensures
        final(out)@ == old(out)@.push(hex_digit(d as int)),
{
    if d < 10 {
        out.push((48u8 + d as u8) as char);
    } else {
        out.push((87u8 + d as u8) as char);
    }
}

/// Write a character as it stands in a JSON string.
pub fn write_json_char(c: char, out: &mut String)
    ensures
        final(out)@ == old(out)@ + json_char(c),
{
    if c == '"' {
        out.push('\\');
        out.push('"');
    } else if c == '\\' {
        out.push('\\');
        out.push('\\');
    } else if c == '\n' {
        out.push('\\');
        out.push('n');
    } else if c == '\r' {
        out.push('\\');
        out.push('r');
    } else if c == '\t' {
        out.push('\\');
        out.push('t');
    } else if code(c) < 0x20 {
        out.push('\\');
        out.push('u');
        out.push('0');
        out.push('0');
        push_hex(out, code(c) / 16);
        push_hex(out, code(c) % 16);
    } else {
        out.push(c);
    }
    assert(out@ =~= old(out)@ + json_char(c));
}

/// Write `s` as a JSON string literal.
pub fn write_json_string(s: &str, out: &mut String)
    ensures
        final(out)@ == old(out)@ + json_string(s@),
{
    let cs = chars_of(s);
    out.push('"');
    let mut i: usize = 0;
    while i < cs.len()
        invariant
            i <= cs.len(),
            cs@ == s@,
            out@ == old(out)@ + (seq!['"'] + json_body(cs@.take(i as int))),
        decreases cs.len() - i,
    {
        let c = cs[i];
        let ghost before = out@;
        assert(cs@.take(i + 1).drop_last() =~= cs@.take(i as int));
        write_json_char(c, out);
        assert(out@ =~= before + json_char(c));
        i = i + 1;
    }
    assert(cs@.take(i as int) =~= s@);
    out.push('"');
}

fn write_items(a: &Vec<Value>, out: &mut String)
    ensures
        final(out)@ == old(out)@ + joined(json_items(vals(a@)), seq![',']),
    decreases a, 0int,
{
    let ghost parts = json_items(vals(a@));
    let mut i: usize = 0;
    while i < a.len()
        invariant
            i <= a.len(),
            parts == json_items(vals(a@)),
            out@ == old(out)@ + joined(parts.take(i as int), seq![',']),
        decreases a.len() - i,
    {
        proof {
            joined_step(parts, seq![','], i as int);
        }
        if i > 0 {
            out.push(',');
        }
        a[i].write_json(out);
        assert(out@ =~= old(out)@ + joined(parts.take(i + 1), seq![',']));
        i = i + 1;
    }
    assert(parts.take(i as int) =~= parts);
}

fn write_members(m: &Vec<(String, Value)>, out: &mut String)
    ensures
        final(out)@ == old(out)@ + joined(json_members(members(m@)), seq![',']),
    decreases m, 0int,
{
    let ghost parts = json_members(members(m@));
    let mut i: usize = 0;
    while i < m.len()
        invariant
            i <= m.len(),
            parts == json_members(members(m@)),
            out@ == old(out)@ + joined(parts.take(i as int), seq![',']),
        decreases m.len() - i,
    {
        proof {
            joined_step(parts, seq![','], i as int);
        }
        if i > 0 {
            out.push(',');
        }
        write_json_string(&m[i].0, out);
        out.push(':');
        m[i].1.write_json(out);
        assert(out@ =~= old(out)@ + joined(parts.take(i + 1), seq![',']));
        i = i + 1;
    }
    assert(parts.take(i as int) =~= parts);
}

impl Value {
    /// Append the value as compact JSON.
    pub fn write_json(&self, out: &mut String)
        ensures
            final(out)@ == old(out)@ + json_text(self@),
        decreases self, 1int,
    {
        match self {
            Value::Null => out.append("null"),
            Value::Bool(b) => if *b {
                out.append("true")
            } else {
                out.append("false")
            },
            Value::Int(i) => {
                let t = int_text(*i);
                out.append(&t);
            },
            Value::Float(f) => {
                let t = format_float(f);
                out.append(&t);
            },
            Value::Str(s) => write_json_string(s, out),
            Value::Array(a) => {
                out.push('[');
                write_items(a, out);
                out.push(']');
                assert(out@ =~= old(out)@ + json_text(self@));
            },
            Value::Object(m) => {
                out.push('{');
                write_members(m, out);
                out.push('}');
                assert(out@ =~= old(out)@ + json_text(self@));
            },
        }
    }

    /// Render as compact JSON.
    pub fn to_json(&self) -> (r: String)
        ensures
            r@ == json_text(self@),
    {
        let mut out = String::new();
        self.write_json(&mut out);
        out
    }

    /// Render as a raw scalar for query output (no surrounding quotes on
    /// strings). Composite values are rendered as JSON.
    pub fn to_raw_string(&self) -> (r: String)
        ensures
            r@ == raw_text(self@),
    {
        match self {
            Value::Str(s) => s.clone(),
            _ => self.to_json(),
        }
    }
}

/// Equality follows the total order, so `Int(1) == Float(1.0)`.
impl PartialEq for Value {
    fn eq(&self, other: &Value) -> (r: bool) {
        self.value_eq(other)
    }
}

impl vstd::std_specs::cmp::PartialEqSpecImpl for Value {
    open spec fn obeys_eq_spec() -> bool {
        true
    }

    open spec fn eq_spec(&self, other: &Value) -> bool {
        val_rank(self@, other@) == Rank::Level
    }
}

impl From<String> for Value {
    fn from(input: String) -> (r: Value) {
        Value::Str(input)
    }
}

impl vstd::std_specs::convert::FromSpecImpl<String> for Value {
    open spec fn obeys_from_spec() -> bool {
        true
    }

    open spec fn from_spec(input: String) -> Value {
        Value::Str(input)
    }
}

impl From<&str> for Value {
    fn from(input: &str) -> (r: Value)
        ensures
            r@ == Val::Str(input@),
    {
        Value::Str(input.to_owned())
    }
}

impl vstd::std_specs::convert::FromSpecImpl<&str> for Value {
    open spec fn obeys_from_spec() -> bool {
        false
    }

    open spec fn from_spec(input: &str) -> Value {
        Value::Null
    }
}

/// A truth value is a boolean.
impl From<bool> for Value {
    fn from(input: bool) -> (r: Value) {
        Value::Bool(input)
    }
}

impl vstd::std_specs::convert::FromSpecImpl<bool> for Value {
    open spec fn obeys_from_spec() -> bool {
        true
    }

    open spec fn from_spec(input: bool) -> Value {
        Value::Bool(input)
    }
}

/// A double is a number.
impl From<Float> for Value {
    fn from(input: Float) -> (r: Value) {
        Value::Float(input)
    }
}

impl vstd::std_specs::convert::FromSpecImpl<Float> for Value {
    open spec fn obeys_from_spec() -> bool {
        true
    }

    open spec fn from_spec(input: Float) -> Value {
        Value::Float(input)
    }
}

/// An integer is a number.
impl From<i64> for Value {
    fn from(input: i64) -> (r: Value) {
        Value::Int(input)
    }
}

impl vstd::std_specs::convert::FromSpecImpl<i64> for Value {
    open spec fn obeys_from_spec() -> bool {
        true
    }

    open spec fn from_spec(input: i64) -> Value {
        Value::Int(input)
    }
}

/// An integer that is no wider than a value's own is the same number.
impl From<i8> for Value {
    fn from(input: i8) -> (r: Value) {
        Value::Int(input as i64)
    }
}

impl vstd::std_specs::convert::FromSpecImpl<i8> for Value {
    open spec fn obeys_from_spec() -> bool {
        true
    }

    open spec fn from_spec(input: i8) -> Value {
        Value::Int(input as i64)
    }
}

/// An integer that is no wider than a value's own is the same number.
impl From<i16> for Value {
    fn from(input: i16) -> (r: Value) {
        Value::Int(input as i64)
    }
}

impl vstd::std_specs::convert::FromSpecImpl<i16> for Value {
    open spec fn obeys_from_spec() -> bool {
        true
    }

    open spec fn from_spec(input: i16) -> Value {
        Value::Int(input as i64)
    }
}

/// An integer that is no wider than a value's own is the same number.
impl From<i32> for Value {
    fn from(input: i32) -> (r: Value) {
        Value::Int(input as i64)
    }
}

impl vstd::std_specs::convert::FromSpecImpl<i32> for Value {
    open spec fn obeys_from_spec() -> bool {
        true
    }

    open spec fn from_spec(input: i32) -> Value {
        Value::Int(input as i64)
    }
}

/// An integer that is no wider than a value's own is the same number.
impl From<isize> for Value {
    fn from(input: isize) -> (r: Value) {
        Value::Int(input as i64)
    }
}

impl vstd::std_specs::convert::FromSpecImpl<isize> for Value {
    open spec fn obeys_from_spec() -> bool {
        true
    }

    open spec fn from_spec(input: isize) -> Value {
        Value::Int(input as i64)
    }
}

/// An integer that is no wider than a value's own is the same number.
impl From<u8> for Value {
    fn from(input: u8) -> (r: Value) {
        Value::Int(input as i64)
    }
}

impl vstd::std_specs::convert::FromSpecImpl<u8> for Value {
    open spec fn obeys_from_spec() -> bool {
        true
    }

    open spec fn from_spec(input: u8) -> Value {
        Value::Int(input as i64)
    }
}

/// An integer that is no wider than a value's own is the same number.
impl From<u16> for Value {
    fn from(input: u16) -> (r: Value) {
        Value::Int(input as i64)
    }
}

impl vstd::std_specs::convert::FromSpecImpl<u16> for Value {
    open spec fn obeys_from_spec() -> bool {
        true
    }

    open spec fn from_spec(input: u16) -> Value {
        Value::Int(input as i64)
    }
}

/// An integer that is no wider than a value's own is the same number.
impl From<u32> for Value {
    fn from(input: u32) -> (r: Value) {
        Value::Int(input as i64)
    }
}

impl vstd::std_specs::convert::FromSpecImpl<u32> for Value {
    open spec fn obeys_from_spec() -> bool {
        true
    }

    open spec fn from_spec(input: u32) -> Value {
        Value::Int(input as i64)
    }
}

/// What is there converts; nothing is null.
impl<T: Into<Value>> From<Option<T>> for Value {
    fn from(input: Option<T>) -> (r: Value)
        ensures
            input is None ==> r@ == Val::Null,
            input is Some ==> call_ensures(<T as Into<Value>>::into, (input->0,), r),
    {
        match input {
            None => Value::Null,
            Some(x) => x.into(),
        }
    }
}

impl<T: Into<Value>> vstd::std_specs::convert::FromSpecImpl<Option<T>> for Value {
    open spec fn obeys_from_spec() -> bool {
        false
    }

    open spec fn from_spec(input: Option<T>) -> Value {
        Value::Null
    }
}

/// A list is an array of its items, each converted, in order.
impl<T: Into<Value>> From<Vec<T>> for Value {
    fn from(input: Vec<T>) -> (r: Value)
        ensures
            r is Array,
            r->Array_0@.len() == input@.len(),
            forall|i: int|
                0 <= i < input@.len() ==> call_ensures(
                    <T as Into<Value>>::into,
                    (#[trigger] input@[i],),
                    r->Array_0@[i],
                ),
    {
        let mut rest: Vec<T> = input;
        let mut out: Vec<Value> = Vec::new();
        let n: usize = rest.len();
        let mut k: usize = 0;
        while k < n
            invariant
                k <= n,
                n == input@.len(),
                out@.len() == k,
                rest@ == input@.skip(k as int),
                forall|i: int|
                    0 <= i < k ==> call_ensures(
                        <T as Into<Value>>::into,
                        (#[trigger] input@[i],),
                        out@[i],
                    ),
            decreases n - k,
        {
            let x = rest.remove(0);
            out.push(x.into());
            k += 1;
            assert(rest@ =~= input@.skip(k as int));
        }
        Value::Array(out)
    }
}

impl<T: Into<Value>> vstd::std_specs::convert::FromSpecImpl<Vec<T>> for Value {
    open spec fn obeys_from_spec() -> bool {
        false
    }

    open spec fn from_spec(input: Vec<T>) -> Value {
        Value::Null
    }
}

} // verus!
