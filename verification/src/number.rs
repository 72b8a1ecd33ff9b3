//! Numbers as they appear in JSON and YAML documents.
//!
//! An integer is held as such. Any other number is held by the text that prints it: the
//! shortest decimal that reads back as the same double, with or without an exponent.
use crate::text::{
    chars_of, copy_text, digit_char, i64_text, int_text, is_digit, nat_text, same, seek, seek_char, u64_text, Duplicate,
};
use vstd::prelude::*;

verus! {

/// A number of a document.
#[derive(Debug, Clone, PartialEq)]
pub enum Number {
    PosInt(u64),
    NegInt(i64),
    Real(String),
}

/// What a number stands for.
pub enum NumberView {
    Int(int),
    Real(Seq<char>),
}

impl View for Number {
    type V = NumberView;

    open spec fn view(&self) -> NumberView {
        match self {
            Number::PosInt(u) => NumberView::Int(*u as int),
            Number::NegInt(i) => NumberView::Int(*i as int),
            Number::Real(t) => NumberView::Real(t@),
        }
    }
}

impl Duplicate for Number {
    fn duplicate(&self) -> (r: Self) {
        match self {
            Number::PosInt(u) => Number::PosInt(*u),
            Number::NegInt(i) => Number::NegInt(*i),
            Number::Real(t) => Number::Real(copy_text(t.as_str())),
        }
    }
}

/// Whether two numbers stand for the same.
pub fn same_number(a: &Number, b: &Number) -> (r: bool)
    ensures
        r == (a@ == b@),
{
    match (a, b) {
        (Number::Real(x), Number::Real(y)) => same(x.as_str(), y.as_str()),
        (Number::PosInt(x), Number::PosInt(y)) => *x == *y,
        (Number::NegInt(x), Number::NegInt(y)) => *x == *y,
        (Number::PosInt(x), Number::NegInt(y)) => *y >= 0 && *x == *y as u64,
        (Number::NegInt(x), Number::PosInt(y)) => *x >= 0 && *x as u64 == *y,
        _ => false,
    }
}

/// The text that prints a number.
pub open spec fn printed(n: NumberView) -> Seq<char> {
    match n {
        NumberView::Int(i) => int_text(i),
        NumberView::Real(t) => t,
    }
}

/// The text that prints a number.
pub fn print_number(n: &Number) -> (r: String)
    ensures
        r@ == printed(n@),
{
    match n {
        Number::PosInt(u) => u64_text(*u),
        Number::NegInt(i) => i64_text(*i),
        Number::Real(t) => copy_text(t.as_str()),
    }
}

// ---- positional form -------------------------------------------------------------------

/// No exponent of a double goes beyond this.
pub const MAX_EXPONENT: u32 = 400;

/// The number that a run of digits writes, held at `MAX_EXPONENT`; other characters are
/// passed over.
pub open spec fn small_value(s: Seq<char>) -> nat
    decreases s.len(),
{
    if s.len() == 0 {
        0
    } else {
        let v = small_value(s.drop_last());
        let w = if is_digit(s.last()) {
            (v * 10 + (s.last() as u32 - 0x30)) as nat
        } else {
            v
        };
        if w > MAX_EXPONENT {
            MAX_EXPONENT as nat
        } else {
            w
        }
    }
}

fn small(cs: &[char]) -> (r: u32)
    ensures
        r == small_value(cs@),
        r <= MAX_EXPONENT,
{
    let mut v: u32 = 0;
    let mut i: usize = 0;
    while i < cs.len()
        invariant
            i <= cs@.len(),
            v == small_value(cs@.take(i as int)),
            v <= MAX_EXPONENT,
        decreases cs@.len() - i,
    {
        assert(cs@.take(i + 1).drop_last() =~= cs@.take(i as int));
        let c: char = cs[i];
        if crate::text::digit(c) {
            v = v * 10 + (c as u32 - 0x30);
        }
        if v > MAX_EXPONENT {
            v = MAX_EXPONENT;
        }
        i = i + 1;
    }
    assert(cs@.take(cs@.len() as int) =~= cs@);
    v
}

/// The sign, the digits and the place of the decimal point of a printed number.
pub struct DecimalView {
    pub negative: bool,
    pub digits: Seq<char>,
    /// How many digits stand before the point; negative when zeros follow the point first.
    pub point: int,
}

/// A printed number, taken apart.
pub open spec fn decimal(t: Seq<char>) -> DecimalView {
    let negative = t.len() > 0 && t[0] == '-';
    let body = if negative {
        t.skip(1)
    } else {
        t
    };
    let mark = seek(body, 'e', 0);
    let mantissa = body.take(mark);
    let tail = body.skip(mark);
    let exponent = if tail.len() > 1 && tail[1] == '-' {
        -(small_value(tail) as int)
    } else {
        small_value(tail) as int
    };
    let dot = seek(mantissa, '.', 0);
    let whole = mantissa.take(dot);
    let fraction = if dot < mantissa.len() {
        mantissa.skip(dot + 1)
    } else {
        seq![]
    };
    DecimalView { negative, digits: whole + fraction, point: whole.len() + exponent }
}

/// `n` zeros.
pub open spec fn zeros(n: int) -> Seq<char> {
    Seq::new(
        if n < 0 {
            0
        } else {
            n as nat
        },
        |i: int| '0',
    )
}

/// Digits without the zeros at their front.
pub open spec fn no_front_zeros(s: Seq<char>) -> Seq<char>
    decreases s.len(),
{
    if s.len() > 0 && s[0] == '0' {
        no_front_zeros(s.drop_first())
    } else {
        s
    }
}

/// Digits without the zeros at their end.
pub open spec fn no_back_zeros(s: Seq<char>) -> Seq<char>
    decreases s.len(),
{
    if s.len() > 0 && s.last() == '0' {
        no_back_zeros(s.drop_last())
    } else {
        s
    }
}

/// The digits before the point, at least one.
pub open spec fn whole_part(d: DecimalView) -> Seq<char> {
    let all = if d.point <= 0 {
        seq![]
    } else if d.point >= d.digits.len() {
        d.digits + zeros(d.point - d.digits.len())
    } else {
        d.digits.take(d.point)
    };
    let w = no_front_zeros(all);
    if w.len() == 0 {
        seq!['0']
    } else {
        w
    }
}

/// The digits after the point, without closing zeros.
pub open spec fn fraction_part(d: DecimalView) -> Seq<char> {
    no_back_zeros(
        if d.point <= 0 {
            zeros(-d.point) + d.digits
        } else if d.point >= d.digits.len() {
            seq![]
        } else {
            d.digits.skip(d.point)
        },
    )
}

/// A printed number without an exponent and without a closing `.0`.
pub open spec fn positional(t: Seq<char>) -> Seq<char> {
    let d = decimal(t);
    let sign: Seq<char> = if d.negative {
        seq!['-']
    } else {
        seq![]
    };
    let f = fraction_part(d);
    sign + whole_part(d) + (if f.len() == 0 {
        seq![]
    } else {
        seq!['.'] + f
    })
}

/// The parts of a printed number.
pub struct Parts {
    pub negative: bool,
    pub whole: Vec<char>,
    pub fraction: Vec<char>,
}

fn strip_front(v: Vec<char>) -> (r: Vec<char>)
    ensures
        r@ == (if no_front_zeros(v@).len() == 0 {
            seq!['0']
        } else {
            no_front_zeros(v@)
        }),
{
    let mut i: usize = 0;
    assert(v@.skip(0) =~= v@);
    while i < v.len() && v[i] == '0'
        invariant
            i <= v@.len(),
            no_front_zeros(v@.skip(i as int)) == no_front_zeros(v@),
        decreases v@.len() - i,
    {
        assert(v@.skip(i as int).drop_first() =~= v@.skip(i + 1));
        i = i + 1;
    }
    let mut out: Vec<char> = Vec::new();
    let mut k: usize = i;
    while k < v.len()
        invariant
            i <= k <= v@.len(),
            out@ == v@.subrange(i as int, k as int),
        decreases v@.len() - k,
    {
        out.push(v[k]);
        k = k + 1;
        assert(out@ =~= v@.subrange(i as int, k as int));
    }
    assert(out@ =~= v@.skip(i as int));
    if out.len() == 0 {
        out.push('0');
        assert(out@ =~= seq!['0']);
    }
    out
}

fn strip_back(v: Vec<char>) -> (r: Vec<char>)
    ensures
        r@ == no_back_zeros(v@),
{
    let mut v: Vec<char> = v;
    let ghost start = v@;
    while v.len() > 0 && v[v.len() - 1] == '0'
        invariant
            no_back_zeros(v@) == no_back_zeros(start),
        decreases v@.len(),
    {
        let ghost before = v@;
        let dropped = v.pop();
        assert(v@ =~= before.drop_last());
    }
    v
}

fn append(out: &mut Vec<char>, cs: &[char], i: usize, j: usize)
    requires
        i <= j <= cs@.len(),
    ensures
        final(out)@ == old(out)@ + cs@.subrange(i as int, j as int),
{
    let ghost start = out@;
    let mut k: usize = i;
    while k < j
        invariant
            i <= k <= j <= cs@.len(),
            out@ == start + cs@.subrange(i as int, k as int),
        decreases j - k,
    {
        out.push(cs[k]);
        k = k + 1;
        assert(out@ =~= start + cs@.subrange(i as int, k as int));
    }
}

fn append_zeros(out: &mut Vec<char>, n: usize)
    ensures
        final(out)@ == old(out)@ + zeros(n as int),
{
    let ghost start = out@;
    let mut k: usize = 0;
    assert(out@ =~= start + zeros(0));
    while k < n
        invariant
            k <= n,
            out@ == start + zeros(k as int),
        decreases n - k,
    {
        out.push('0');
        k = k + 1;
        assert(out@ =~= start + zeros(k as int));
    }
}

/// A printed number, taken apart.
struct Decimal {
    negative: bool,
    digits: Vec<char>,
    point: i128,
}

fn decimal_of(t: &str) -> (r: Decimal)
    ensures
        r.negative == decimal(t@).negative,
        r.digits@ == decimal(t@).digits,
        r.point == decimal(t@).point,
{
    let x: Vec<char> = chars_of(t);
    let negative: bool = x.len() > 0 && x[0] == '-';
    let mut body: Vec<char> = Vec::new();
    let from: usize = if negative {
        1
    } else {
        0
    };
    append(&mut body, x.as_slice(), from, x.len());
    assert(body@ =~= if negative {
        t@.skip(1)
    } else {
        t@
    });
    let mark: usize = seek_char(body.as_slice(), 'e', 0);
    let mut tail: Vec<char> = Vec::new();
    append(&mut tail, body.as_slice(), mark, body.len());
    assert(tail@ =~= body@.skip(mark as int));
    let e: u32 = small(tail.as_slice());
    let down: bool = tail.len() > 1 && tail[1] == '-';
    let mut mantissa: Vec<char> = Vec::new();
    append(&mut mantissa, body.as_slice(), 0, mark);
    assert(mantissa@ =~= body@.take(mark as int));
    let dot: usize = seek_char(mantissa.as_slice(), '.', 0);
    let mut digits: Vec<char> = Vec::new();
    append(&mut digits, mantissa.as_slice(), 0, dot);
    if dot < mantissa.len() {
        append(&mut digits, mantissa.as_slice(), dot + 1, mantissa.len());
        assert(digits@ =~= mantissa@.take(dot as int) + mantissa@.skip(dot + 1));
    } else {
        assert(digits@ =~= mantissa@.take(dot as int) + Seq::<char>::empty());
    }
    let point: i128 = if down {
        dot as i128 - e as i128
    } else {
        dot as i128 + e as i128
    };
    Decimal { negative, digits, point }
}

/// Takes a printed number apart into the digits before and after the point.
pub fn parts_of(t: &str) -> (r: Parts)
    ensures
        r.negative == decimal(t@).negative,
        r.whole@ == whole_part(decimal(t@)),
        r.fraction@ == fraction_part(decimal(t@)),
{
    let d: Decimal = decimal_of(t);
    let ghost v = decimal(t@);
    let n: usize = d.digits.len();
    let mut whole: Vec<char> = Vec::new();
    let mut fraction: Vec<char> = Vec::new();
    if d.point <= 0 {
        append_zeros(&mut fraction, (-d.point) as usize);
        append(&mut fraction, d.digits.as_slice(), 0, n);
        assert(fraction@ =~= zeros(-v.point) + v.digits);
    } else if d.point >= n as i128 {
        append(&mut whole, d.digits.as_slice(), 0, n);
        append_zeros(&mut whole, (d.point - n as i128) as usize);
        assert(whole@ =~= v.digits + zeros(v.point - v.digits.len()));
    } else {
        let point: usize = d.point as usize;
        append(&mut whole, d.digits.as_slice(), 0, point);
        append(&mut fraction, d.digits.as_slice(), point, n);
        assert(whole@ =~= v.digits.take(v.point));
        assert(fraction@ =~= v.digits.skip(v.point));
    }
    Parts { negative: d.negative, whole: strip_front(whole), fraction: strip_back(fraction) }
}

/// A printed number without an exponent and without a closing `.0`.
pub fn positional_text(t: &str) -> (r: String)
    ensures
        r@ == positional(t@),
{
    let p: Parts = parts_of(t);
    let mut out: String = String::new();
    if p.negative {
        out.push('-');
    }
    let w: String = crate::text::text_of(p.whole.as_slice());
    out.push_str(w.as_str());
    if p.fraction.len() > 0 {
        out.push('.');
        let f: String = crate::text::text_of(p.fraction.as_slice());
        out.push_str(f.as_str());
    }
    assert(out@ =~= positional(t@));
    out
}

/// The text of a number in an assertion or a substituted variable: an integral value has no
/// fraction and zero has no sign.
pub open spec fn number_spec(n: NumberView) -> Seq<char> {
    match n {
        NumberView::Int(i) => int_text(i),
        NumberView::Real(t) => {
            let d = decimal(t);
            if whole_part(d) == seq!['0'] && fraction_part(d).len() == 0 {
                seq!['0']
            } else {
                positional(t)
            }
        },
    }
}

/// The text of a number in an assertion or a substituted variable.
pub fn number_text(n: &Number) -> (r: String)
    ensures
        r@ == number_spec(n@),
{
    match n {
        Number::PosInt(u) => u64_text(*u),
        Number::NegInt(i) => i64_text(*i),
        Number::Real(t) => {
            let p: Parts = parts_of(t.as_str());
            if p.whole.len() == 1 && p.whole[0] == '0' && p.fraction.len() == 0 {
                let mut out: String = String::new();
                out.push('0');
                assert(p.whole@ =~= seq!['0']);
                assert(out@ =~= seq!['0']);
                out
            } else {
                assert(whole_part(decimal(t@)) == seq!['0'] ==> p.whole@ =~= seq!['0']);
                positional_text(t.as_str())
            }
        },
    }
}

/// The text of a number in a YAML document: a number that is no integer keeps a point.
pub open spec fn yaml_number(n: NumberView) -> Seq<char> {
    match n {
        NumberView::Int(i) => int_text(i),
        NumberView::Real(t) => if fraction_part(decimal(t)).len() == 0 {
            positional(t) + seq!['.', '0']
        } else {
            positional(t)
        },
    }
}

/// The text of a number in a YAML document.
pub fn yaml_number_text(n: &Number) -> (r: String)
    ensures
        r@ == yaml_number(n@),
{
    match n {
        Number::PosInt(u) => u64_text(*u),
        Number::NegInt(i) => i64_text(*i),
        Number::Real(t) => {
            let p: Parts = parts_of(t.as_str());
            let mut out: String = positional_text(t.as_str());
            if p.fraction.len() == 0 {
                out.push('.');
                out.push('0');
                assert(out@ =~= positional(t@) + seq!['.', '0']);
            }
            out
        },
    }
}

// ---- integral values -------------------------------------------------------------------

/// The number that a run of digits writes; other characters are passed over.
pub open spec fn digits_value(s: Seq<char>) -> nat
    decreases s.len(),
{
    if s.len() == 0 {
        0
    } else {
        let v = digits_value(s.drop_last());
        if is_digit(s.last()) {
            (v * 10 + (s.last() as u32 - 0x30)) as nat
        } else {
            v
        }
    }
}

proof fn lemma_digits_grow(s: Seq<char>, i: int)
    requires
        0 <= i <= s.len(),
    ensures
        digits_value(s.take(i)) <= digits_value(s),
    decreases s.len() - i,
{
    if i < s.len() {
        assert(s.take(i + 1).drop_last() =~= s.take(i));
        lemma_digits_grow(s, i + 1);
    } else {
        assert(s.take(i) =~= s);
    }
}

/// The number that a run of digits writes, held at the largest `u64`.
pub fn saturating_value(cs: &[char]) -> (r: u64)
    ensures
        r == (if digits_value(cs@) > u64::MAX {
            u64::MAX as nat
        } else {
            digits_value(cs@)
        }),
{
    let mut v: u64 = 0;
    let mut i: usize = 0;
    while i < cs.len()
        invariant
            i <= cs@.len(),
            v == digits_value(cs@.take(i as int)),
        decreases cs@.len() - i,
    {
        proof {
            assert(cs@.take(i + 1).drop_last() =~= cs@.take(i as int));
            lemma_digits_grow(cs@, i + 1);
        }
        let c: char = cs[i];
        if crate::text::digit(c) {
            let d: u64 = (c as u32 - 0x30) as u64;
            if v > (u64::MAX - d) / 10 {
                return u64::MAX;
            }
            v = v * 10 + d;
        }
        i = i + 1;
    }
    assert(cs@.take(cs@.len() as int) =~= cs@);
    v
}

// ---- doubles ---------------------------------------------------------------------------

/// The distance between the double-precision numbers about an integer: the least power of two
/// `u` with `n < 2^53 * u`.
pub open spec fn spacing(n: nat, u: nat) -> nat
    decreases n / u,
    when u > 0
    via spacing_decreases
{
    if n / u < 0x20_0000_0000_0000 {
        u
    } else {
        spacing(n, 2 * u)
    }
}

#[via_fn]
proof fn spacing_decreases(n: nat, u: nat) {
    if u > 0 && n / u >= 0x20_0000_0000_0000 {
        assert(n / (2 * u) < n / u) by (nonlinear_arith)
            requires
                u > 0,
                n / u >= 0x20_0000_0000_0000,
        {
            let q = n / u;
            let h = n / (2 * u);
            assert(u * q <= n);
            assert(2 * u * h <= n < 2 * u * h + 2 * u);
            assert(n < u * q + u);
            assert(2 * u * h < u * q + u);
            assert(2 * h < q + 1);
        }
    }
}

/// The double-precision number that is nearest to an integer, with ties to even.
pub open spec fn as_double(n: nat) -> nat {
    let u = spacing(n, 1);
    let q = n / u;
    let r = n % u;
    if 2 * r < u || (2 * r == u && q % 2 == 0) {
        q * u
    } else {
        (q + 1) * u
    }
}

/// The double-precision number that is nearest to an integer.
pub fn nearest_double(n: u64) -> (r: u128)
    ensures
        r == as_double(n as nat),
{
    let mut u: u64 = 1;
    while n / u >= 0x20_0000_0000_0000
        invariant
            1 <= u <= 4094,
            spacing(n as nat, 1) == spacing(n as nat, u as nat),
        decreases 4094 - u,
    {
        proof {
            lemma_small_spacing(n, u);
        }
        u = 2 * u;
    }
    let q: u64 = n / u;
    let r: u64 = n % u;
    let up: bool = !(2 * r < u || (2 * r == u && q % 2 == 0));
    let k: u128 = if up {
        q as u128 + 1
    } else {
        q as u128
    };
    assert(k * u <= 0x20_0000_0000_0000 * 4094) by (nonlinear_arith)
        requires
            k <= 0x20_0000_0000_0000,
            u <= 4094,
            0 <= k,
            0 < u,
    ;
    k * (u as u128)
}

proof fn lemma_small_spacing(n: u64, u: u64)
    requires
        1 <= u,
        n / u >= 0x20_0000_0000_0000,
    ensures
        u <= 2047,
{
    assert(u * 0x20_0000_0000_0000 <= n) by (nonlinear_arith)
        requires
            u >= 1,
            n / u >= 0x20_0000_0000_0000,
    ;
}

/// The natural number that a number is cut to as a 64-bit integer, by way of double precision:
/// negative numbers are zero, and numbers that are too large are the largest of the type.
pub open spec fn cut_to_u64(n: NumberView) -> u64 {
    let v: nat = match n {
        NumberView::Int(i) => if i < 0 {
            0
        } else {
            as_double(i as nat)
        },
        NumberView::Real(t) => if decimal(t).negative {
            0
        } else {
            as_double(digits_value(whole_part(decimal(t))))
        },
    };
    if v > u64::MAX {
        u64::MAX
    } else {
        v as u64
    }
}

proof fn lemma_spacing_keeps(n: nat, u: nat)
    requires
        u > 0,
        n / u >= 0x10_0000_0000_0000,
    ensures
        spacing(n, u) >= u,
        n / spacing(n, u) >= 0x10_0000_0000_0000,
    decreases n / u,
{
    if n / u >= 0x20_0000_0000_0000 {
        assert(n / (2 * u) >= 0x10_0000_0000_0000) by (nonlinear_arith)
            requires
                u > 0,
                n / u >= 0x20_0000_0000_0000,
        {
            let q = n / u;
            let h = n / (2 * u);
            assert(u * q <= n);
            assert(n < 2 * u * h + 2 * u);
            assert(u * q < u * (2 * h + 2));
            assert(q < 2 * h + 2);
        }
        assert(n / (2 * u) < n / u) by (nonlinear_arith)
            requires
                u > 0,
                n / u >= 0x20_0000_0000_0000,
        {
            let q = n / u;
            let h = n / (2 * u);
            assert(2 * u * h <= n);
            assert(n < u * q + u);
            assert(2 * u * h < u * q + u);
            assert(2 * h < q + 1);
        }
        lemma_spacing_keeps(n, 2 * u);
    }
}

proof fn lemma_double_of_large(n: nat)
    requires
        n >= u64::MAX,
    ensures
        as_double(n) >= u64::MAX,
{
    reveal_with_fuel(spacing, 14);
    if n == u64::MAX {
        assert(spacing(n, 1) == 2048);
        assert(as_double(n) == (n / 2048 + 1) * 2048);
    } else {
        assert(spacing(n, 1) == spacing(n, 4096));
        lemma_spacing_keeps(n, 4096);
        let u = spacing(n, 1);
        let q = n / u;
        assert(q * u >= 0x10_0000_0000_0000 * 4096) by (nonlinear_arith)
            requires
                q >= 0x10_0000_0000_0000,
                u >= 4096,
        ;
        assert((q + 1) * u >= q * u) by (nonlinear_arith)
            requires
                u >= 4096,
        ;
    }
}

/// The natural number that a number is cut to as a 64-bit integer.
pub fn number_as_u64(n: &Number) -> (r: u64)
    ensures
        r == cut_to_u64(n@),
{
    let v: u64 = match n {
        Number::PosInt(u) => *u,
        Number::NegInt(i) => if *i < 0 {
            0
        } else {
            *i as u64
        },
        Number::Real(t) => {
            let p: Parts = parts_of(t.as_str());
            if p.negative {
                0
            } else {
                let v: u64 = saturating_value(p.whole.as_slice());
                if v == u64::MAX {
                    proof {
                        lemma_double_of_large(digits_value(p.whole@));
                    }
                    return u64::MAX;
                }
                v
            }
        },
    };
    let d: u128 = nearest_double(v);
    if d > u64::MAX as u128 {
        u64::MAX
    } else {
        d as u64
    }
}

/// Digits are read as decimal digits are: one more digit is ten times as much and that digit.
pub proof fn law_digits(s: Seq<char>, c: char)
    requires
        is_digit(c),
    ensures
        digits_value(seq![]) == 0,
        digits_value(s.push(c)) == 10 * digits_value(s) + (c as u32 - '0' as u32),
{
    assert(s.push(c).drop_last() =~= s);
}

/// A limit that is a whole number is that number as long as a double holds it exactly; a negative
/// one is zero.
pub proof fn law_whole_limit(i: int)
    ensures
        0 <= i < 0x20_0000_0000_0000 ==> cut_to_u64(NumberView::Int(i)) == i,
        i < 0 ==> cut_to_u64(NumberView::Int(i)) == 0,
{
    if 0 <= i < 0x20_0000_0000_0000 {
        let n = i as nat;
        assert(n / 1 == n);
        assert(spacing(n, 1) == 1);
        assert(n % 1 == 0);
        assert(as_double(n) == n);
    }
}

/// A number that is written in digits is read back from them; a number with a sign has it in front.
pub proof fn law_number_read_back(n: nat)
    ensures
        digits_value(nat_text(n)) == n,
        printed(NumberView::Int(n as int)) == nat_text(n),
        n > 0 ==> printed(NumberView::Int(-(n as int))) == seq!['-'] + nat_text(n),
    decreases n,
{
    reveal_with_fuel(digits_value, 2);
    if n < 10 {
        assert(nat_text(n).drop_last() =~= seq![]);
        assert(nat_text(n).last() == digit_char(n as int));
    } else {
        law_number_read_back(n / 10);
        let t = nat_text(n / 10);
        assert(nat_text(n) == t.push(digit_char((n % 10) as int)));
        assert(nat_text(n).drop_last() =~= t);
    }
}

} // verus!
