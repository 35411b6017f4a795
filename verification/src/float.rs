//! Double-precision numbers as plain data.
//!
//! A [`Float`] carries its IEEE 754 bits and its shortest decimal rendering.
//! What follows from the bits alone (ordering, sign, whether the number is a
//! small integer, the double nearest to an integer) is computed here in
//! integer arithmetic. What needs floating-point hardware (reading a decimal
//! literal, `+ - * / %`) is looked up in a table of [`FloatFacts`] that the
//! caller fills in; a missing entry is reported as a [`FloatNeed`].
use crate::strs::{chars_of, int_digits, int_text, same, slice_text};
use vstd::arithmetic::power2::{lemma2_to64, lemma2_to64_rest, lemma_pow2_unfold, pow2};
use vstd::prelude::*;
use vstd::string::*;

verus! {

/// A double-precision number: its IEEE 754 bits and its decimal rendering.
#[derive(Debug)]
pub struct Float {
    pub bits: u64,
    pub text: String,
}

/// The mathematical content of a [`Float`].
pub struct Flt {
    pub bits: u64,
    pub text: Seq<char>,
}

impl View for Float {
    type V = Flt;

    open spec fn view(&self) -> Flt {
        Flt { bits: self.bits, text: self.text@ }
    }
}

impl Clone for Float {
    fn clone(&self) -> (r: Float)
        ensures
            r@ == self@,
    {
        Float { bits: self.bits, text: self.text.clone() }
    }
}

/// The bits without the sign bit.
pub open spec fn magnitude(bits: u64) -> int {
    bits as int % 0x8000_0000_0000_0000
}

pub open spec fn is_negative(bits: u64) -> bool {
    bits as int >= 0x8000_0000_0000_0000
}

/// Exponent all ones and a non-zero fraction.
pub open spec fn is_nan(bits: u64) -> bool {
    magnitude(bits) > 0x7ff0_0000_0000_0000
}

/// Neither infinite nor `NaN`.
pub open spec fn is_finite(bits: u64) -> bool {
    magnitude(bits) < 0x7ff0_0000_0000_0000
}

/// Positive or negative zero.
pub open spec fn is_zero(bits: u64) -> bool {
    magnitude(bits) == 0
}

/// IEEE 754 formats order like sign-and-magnitude integers.
pub open spec fn order_key(bits: u64) -> int {
    if is_negative(bits) {
        -magnitude(bits)
    } else {
        magnitude(bits)
    }
}

/// Neither operand is `NaN` and `a` is below `b`.
pub open spec fn float_below(a: u64, b: u64) -> bool {
    !is_nan(a) && !is_nan(b) && order_key(a) < order_key(b)
}

pub fn nan(bits: u64) -> (r: bool)
    ensures
        r == is_nan(bits),
{
    bits % 0x8000_0000_0000_0000 > 0x7ff0_0000_0000_0000
}

pub fn finite(bits: u64) -> (r: bool)
    ensures
        r == is_finite(bits),
{
    bits % 0x8000_0000_0000_0000 < 0x7ff0_0000_0000_0000
}

pub fn zero(bits: u64) -> (r: bool)
    ensures
        r == is_zero(bits),
{
    bits % 0x8000_0000_0000_0000 == 0
}

/// Is `a` numerically below `b`? `NaN` is below nothing and above nothing.
pub fn below(a: u64, b: u64) -> (r: bool)
    ensures
        r == float_below(a, b),
{
    if nan(a) || nan(b) {
        return false;
    }
    let ma: u64 = a % 0x8000_0000_0000_0000;
    let mb: u64 = b % 0x8000_0000_0000_0000;
    let na: bool = a >= 0x8000_0000_0000_0000;
    let nb: bool = b >= 0x8000_0000_0000_0000;
    if na {
        if nb {
            mb < ma
        } else {
            ma != 0 || mb != 0
        }
    } else {
        !nb && ma < mb
    }
}

/// Halve `q` until it fits in 53 bits, collecting what is cut off in `rem`
/// (counted in units of one, with `unit` the weight of `q`'s last bit).
pub open spec fn halve(q: nat, rem: nat, unit: nat, e: nat) -> (nat, nat, nat, nat)
    decreases q,
{
    if q < 0x20_0000_0000_0000 {
        (q, rem, unit, e)
    } else {
        halve(q / 2, if q % 2 == 1 { rem + unit } else { rem }, 2 * unit, e + 1)
    }
}

/// Double `q` until its 53rd bit is set.
pub open spec fn widen(q: nat, e: int) -> (nat, int)
    decreases 0x20_0000_0000_0000 - q,
{
    if q == 0 || q >= 0x10_0000_0000_0000 {
        (q, e)
    } else {
        widen(2 * q, e - 1)
    }
}

/// The bits of the double nearest to the magnitude `m`, ties to even.
pub open spec fn nearest_magnitude(m: nat) -> int {
    if m == 0 {
        0
    } else if m < 0x20_0000_0000_0000 {
        let (q, e) = widen(m, 1075);
        e * 0x10_0000_0000_0000 + (q - 0x10_0000_0000_0000)
    } else {
        let (q, rem, unit, e) = halve(m, 0, 1, 0);
        let up = 2 * rem > unit || (2 * rem == unit && q % 2 == 1);
        (1075 + e) * 0x10_0000_0000_0000 + (q - 0x10_0000_0000_0000) + (if up {
            1int
        } else {
            0
        })
    }
}

/// The bits of the double nearest to `i`.
pub open spec fn nearest_double(i: i64) -> u64 {
    if i < 0 {
        (nearest_magnitude((-i) as nat) + 0x8000_0000_0000_0000) as u64
    } else {
        nearest_magnitude(i as nat) as u64
    }
}

fn double_magnitude(m: u64) -> (r: u64)
    requires
        m <= 0x8000_0000_0000_0000,
    ensures
        r == nearest_magnitude(m as nat),
        r < 0x8000_0000_0000_0000,
{
    if m == 0 {
        return 0;
    }
    if m < 0x20_0000_0000_0000 {
        let mut q: u64 = m;
        let mut e: u64 = 1075;
        proof {
            lemma2_to64();
        }
        while q < 0x10_0000_0000_0000
            invariant
                0 < q < 0x20_0000_0000_0000,
                1023 <= e <= 1075,
                q >= pow2((1075 - e) as nat),
                widen(q as nat, e as int) == widen(m as nat, 1075),
            decreases 0x20_0000_0000_0000 - q,
        {
            proof {
                lemma2_to64_rest();
                assert(pow2(52) == 0x10_0000_0000_0000);
                lemma_pow2_unfold((1076 - e) as nat);
            }
            q = 2 * q;
            e = e - 1;
        }
        e * 0x10_0000_0000_0000 + (q - 0x10_0000_0000_0000)
    } else {
        let mut q: u64 = m;
        let mut rem: u64 = 0;
        let mut unit: u64 = 1;
        let mut e: u64 = 0;
        proof {
            lemma2_to64();
        }
        while q >= 0x20_0000_0000_0000
            invariant
                0x10_0000_0000_0000 <= q <= m,
                m <= 0x8000_0000_0000_0000,
                rem < unit,
                q * unit <= m,
                unit == pow2(e as nat),
                unit <= 2048,
                e <= 11,
                halve(q as nat, rem as nat, unit as nat, e as nat) == halve(m as nat, 0, 1, 0),
            decreases q,
        {
            assert(unit <= 1024) by (nonlinear_arith)
                requires
                    q * unit <= m,
                    m <= 0x8000_0000_0000_0000,
                    q >= 0x20_0000_0000_0000,
            ;
            assert((q / 2) * (2 * unit) <= q * unit) by (nonlinear_arith)
                requires
                    q >= 0,
                    unit >= 0,
            ;
            proof {
                lemma2_to64();
                if e >= 11 {
                    assert(pow2(11) == 2048);
                }
                lemma_pow2_unfold((e + 1) as nat);
            }
            if q % 2 == 1 {
                rem = rem + unit;
            }
            q = q / 2;
            unit = 2 * unit;
            e = e + 1;
        }
        let up: bool = 2 * rem > unit || (2 * rem == unit && q % 2 == 1);
        (1075 + e) * 0x10_0000_0000_0000 + (q - 0x10_0000_0000_0000) + (if up {
            1u64
        } else {
            0
        })
    }
}

/// The double nearest to `i`, ties to even: its bits.
pub fn double_of(i: i64) -> (r: u64)
    ensures
        r == nearest_double(i),
{
    if i < 0 {
        let m: u64 = if i == i64::MIN {
            0x8000_0000_0000_0000
        } else {
            (-i) as u64
        };
        double_magnitude(m) + 0x8000_0000_0000_0000
    } else {
        double_magnitude(i as u64)
    }
}

/// `m / 2^k` when that is a whole number.
pub open spec fn unshift(m: nat, k: nat) -> Option<nat>
    decreases k,
{
    if k == 0 {
        Some(m)
    } else if m % 2 == 1 {
        None
    } else {
        unshift(m / 2, (k - 1) as nat)
    }
}

/// The value of `bits` when it is a whole number below 10^15 in magnitude.
pub open spec fn small_integer(bits: u64) -> Option<int> {
    let mag = magnitude(bits);
    let e = mag / 0x10_0000_0000_0000;
    if mag == 0 {
        Some(0)
    } else if e < 1023 || e > 1075 {
        None
    } else {
        match unshift((mag % 0x10_0000_0000_0000 + 0x10_0000_0000_0000) as nat, (1075 - e) as nat) {
            Some(n) => if n < 1_000_000_000_000_000 {
                Some(
                    if is_negative(bits) {
                        -n
                    } else {
                        n as int
                    },
                )
            } else {
                None
            },
            None => None,
        }
    }
}

/// The whole number `bits` stands for, when it is below 10^15 in magnitude.
#[verifier::loop_isolation(false)]
pub fn whole_number(bits: u64) -> (r: Option<i64>)
    ensures
        r is Some <==> small_integer(bits) is Some,
        r is Some ==> r->0 == small_integer(bits)->0,
{
    let mag: u64 = bits % 0x8000_0000_0000_0000;
    let e: u64 = mag / 0x10_0000_0000_0000;
    if mag == 0 {
        return Some(0);
    }
    if e < 1023 || e > 1075 {
        return None;
    }
    let mut m: u64 = mag % 0x10_0000_0000_0000 + 0x10_0000_0000_0000;
    let mut k: u64 = 1075 - e;
    let ghost goal = unshift(m as nat, k as nat);
    while k > 0
        invariant
            unshift(m as nat, k as nat) == goal,
        decreases k,
    {
        if m % 2 == 1 {
            return None;
        }
        m = m / 2;
        k = k - 1;
    }
    if m >= 1_000_000_000_000_000 {
        return None;
    }
    if bits >= 0x8000_0000_0000_0000 {
        Some(-(m as i64))
    } else {
        Some(m as i64)
    }
}

/// How a number prints: small whole numbers without a decimal point, anything
/// else as its decimal rendering.
pub open spec fn float_text(f: Flt) -> Seq<char> {
    match small_integer(f.bits) {
        Some(n) => int_digits(n),
        None => f.text,
    }
}

pub fn format_float(f: &Float) -> (r: String)
    ensures
        r@ == float_text(f@),
{
    match whole_number(f.bits) {
        Some(n) => int_text(n),
        None => f.text.clone(),
    }
}

/// `-f`: the sign bit flipped, and the rendering's sign with it (`NaN` has
/// none).
pub open spec fn negated(f: Flt) -> Flt {
    Flt {
        bits: if is_negative(f.bits) {
            (f.bits - 0x8000_0000_0000_0000) as u64
        } else {
            (f.bits + 0x8000_0000_0000_0000) as u64
        },
        text: if is_nan(f.bits) {
            f.text
        } else if f.text.len() > 0 && f.text[0] == '-' {
            f.text.drop_first()
        } else {
            seq!['-'] + f.text
        },
    }
}

pub fn negate_float(f: &Float) -> (r: Float)
    ensures
        r@ == negated(f@),
{
    let bits: u64 = if f.bits >= 0x8000_0000_0000_0000 {
        f.bits - 0x8000_0000_0000_0000
    } else {
        f.bits + 0x8000_0000_0000_0000
    };
    if nan(f.bits) {
        return Float { bits, text: f.text.clone() };
    }
    let cs = chars_of(&f.text);
    let mut text = String::new();
    let mut from: usize = 0;
    if cs.len() > 0 && cs[0] == '-' {
        from = 1;
    } else {
        text.push('-');
    }
    let rest = slice_text(&cs, from, cs.len());
    text.append(&rest);
    assert(text@ == negated(f@).text);
    Float { bits, text }
}

/// A floating-point operation the table of facts answers for.
#[derive(Debug, Clone, Copy, PartialEq, Eq, Structural)]
pub enum Arith {
    Add,
    Sub,
    Mul,
    Div,
    Rem,
}

/// A floating-point result that is wanted and not in the table.
#[derive(Debug)]
pub enum FloatNeed {
    /// The number a literal denotes, if it denotes one: a decimal literal, or
    /// `0x` and hexadecimal digits for an integer too wide for a value's own.
    Parse(String),
    /// The result of an operation on two numbers given by their bits.
    Compute(Arith, u64, u64),
}

/// The mathematical content of a [`FloatNeed`].
pub enum Need {
    Parse(Seq<char>),
    Compute(Arith, u64, u64),
}

impl View for FloatNeed {
    type V = Need;

    open spec fn view(&self) -> Need {
        match *self {
            FloatNeed::Parse(t) => Need::Parse(t@),
            FloatNeed::Compute(op, a, b) => Need::Compute(op, a, b),
        }
    }
}

/// Floating-point results worked out by the caller.
#[derive(Debug)]
pub struct FloatFacts {
    /// What literals denote.
    pub parsed: Vec<(String, Option<Float>)>,
    /// Results of operations on bits.
    pub computed: Vec<(Arith, u64, u64, Float)>,
}

/// The mathematical content of [`FloatFacts`].
pub struct Facts {
    pub parsed: Seq<(Seq<char>, Option<Flt>)>,
    pub computed: Seq<(Arith, u64, u64, Flt)>,
}

/// The view of an optional number.
pub open spec fn opt_flt(f: Option<Float>) -> Option<Flt> {
    match f {
        Some(x) => Some(x@),
        None => None,
    }
}

impl View for FloatFacts {
    type V = Facts;

    open spec fn view(&self) -> Facts {
        Facts {
            parsed: Seq::new(
                self.parsed@.len(),
                |i: int| (self.parsed@[i].0@, opt_flt(self.parsed@[i].1)),
            ),
            computed: Seq::new(
                self.computed@.len(),
                |i: int|
                    (
                        self.computed@[i].0,
                        self.computed@[i].1,
                        self.computed@[i].2,
                        self.computed@[i].3@,
                    ),
            ),
        }
    }
}

/// The first entry for `text` at or after `i`.
pub open spec fn parsed_from(fs: Facts, text: Seq<char>, i: int) -> Option<Option<Flt>>
    decreases fs.parsed.len() - i,
{
    if i < 0 || i >= fs.parsed.len() {
        None
    } else if fs.parsed[i].0 == text {
        Some(fs.parsed[i].1)
    } else {
        parsed_from(fs, text, i + 1)
    }
}

/// What the table says a decimal literal denotes.
pub open spec fn parsed(fs: Facts, text: Seq<char>) -> Result<Option<Flt>, Need> {
    match parsed_from(fs, text, 0) {
        Some(f) => Ok(f),
        None => Err(Need::Parse(text)),
    }
}

/// The first entry for the operation at or after `i`.
pub open spec fn computed_from(fs: Facts, op: Arith, a: u64, b: u64, i: int) -> Option<Flt>
    decreases fs.computed.len() - i,
{
    if i < 0 || i >= fs.computed.len() {
        None
    } else if fs.computed[i].0 == op && fs.computed[i].1 == a && fs.computed[i].2 == b {
        Some(fs.computed[i].3)
    } else {
        computed_from(fs, op, a, b, i + 1)
    }
}

/// What the table says an operation yields.
pub open spec fn computed(fs: Facts, op: Arith, a: u64, b: u64) -> Result<Flt, Need> {
    match computed_from(fs, op, a, b, 0) {
        Some(f) => Ok(f),
        None => Err(Need::Compute(op, a, b)),
    }
}

fn clone_opt(f: &Option<Float>) -> (r: Option<Float>)
    ensures
        opt_flt(r) == opt_flt(*f),
{
    match f {
        Some(x) => Some(x.clone()),
        None => None,
    }
}

impl Clone for FloatFacts {
    fn clone(&self) -> (r: FloatFacts)
        ensures
            r@ == self@,
    {
        let mut out = FloatFacts::new();
        let ghost all = self@;
        let mut i: usize = 0;
        while i < self.parsed.len()
            invariant
                i <= self.parsed.len(),
                all == self@,
                out@.parsed == all.parsed.take(i as int),
                out@.computed.len() == 0,
            decreases self.parsed.len() - i,
        {
            let ghost before = out@.parsed;
            out.parsed.push((self.parsed[i].0.clone(), clone_opt(&self.parsed[i].1)));
            assert(out@.parsed =~= before.push(all.parsed[i as int]));
            assert(out@.parsed =~= all.parsed.take(i + 1));
            i = i + 1;
        }
        let mut j: usize = 0;
        while j < self.computed.len()
            invariant
                j <= self.computed.len(),
                i == self.parsed.len(),
                all == self@,
                out@.parsed == all.parsed.take(i as int),
                out@.computed == all.computed.take(j as int),
            decreases self.computed.len() - j,
        {
            let ghost before = out@.computed;
            let ghost kept = out@.parsed;
            out.computed.push(
                (
                    self.computed[j].0,
                    self.computed[j].1,
                    self.computed[j].2,
                    self.computed[j].3.clone(),
                ),
            );
            assert(out@.computed =~= before.push(all.computed[j as int]));
            assert(out@.computed =~= all.computed.take(j + 1));
            assert(out@.parsed =~= kept);
            j = j + 1;
        }
        assert(out@.parsed =~= all.parsed);
        assert(out@.computed =~= all.computed);
        out
    }
}

impl FloatFacts {
    /// A table without entries.
    pub fn new() -> (r: FloatFacts)
        ensures
            r@.parsed == Seq::<(Seq<char>, Option<Flt>)>::empty(),
            r@.computed == Seq::<(Arith, u64, u64, Flt)>::empty(),
    {
        FloatFacts { parsed: Vec::new(), computed: Vec::new() }
    }

    /// What `text` denotes, or the need for an entry that says so.
    pub fn parse(&self, text: &str) -> (r: Result<Option<Float>, FloatNeed>)
        ensures
            match r {
                Ok(f) => parsed(self@, text@) == Ok::<Option<Flt>, Need>(opt_flt(f)),
                Err(n) => parsed(self@, text@) == Err::<Option<Flt>, Need>(n@),
            },
    {
        let mut i: usize = 0;
        while i < self.parsed.len()
            invariant
                i <= self.parsed.len(),
                parsed_from(self@, text@, 0) == parsed_from(self@, text@, i as int),
            decreases self.parsed.len() - i,
        {
            if same(&self.parsed[i].0, text) {
                return Ok(clone_opt(&self.parsed[i].1));
            }
            i = i + 1;
        }
        Err(FloatNeed::Parse(text.to_owned()))
    }

    /// The result of `op` on `a` and `b`, or the need for an entry with it.
    pub fn compute(&self, op: Arith, a: u64, b: u64) -> (r: Result<Float, FloatNeed>)
        ensures
            match r {
                Ok(f) => computed(self@, op, a, b) == Ok::<Flt, Need>(f@),
                Err(n) => computed(self@, op, a, b) == Err::<Flt, Need>(n@),
            },
    {
        let mut i: usize = 0;
        while i < self.computed.len()
            invariant
                i <= self.computed.len(),
                computed_from(self@, op, a, b, 0) == computed_from(self@, op, a, b, i as int),
            decreases self.computed.len() - i,
        {
            if self.computed[i].0 == op && self.computed[i].1 == a && self.computed[i].2 == b {
                return Ok(self.computed[i].3.clone());
            }
            i = i + 1;
        }
        Err(FloatNeed::Compute(op, a, b))
    }
}

} // verus!
