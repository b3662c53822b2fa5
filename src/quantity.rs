//! Exact decimal quantities read from table cells, and how a demand is split into shares.
//!
//! A cell is a number when it is written in decimal notation: an optional sign, digits with at
//! most one decimal point and at least one digit (`12`, `-0.5`, `.25`, `3.`), and optionally an
//! exponent, `e` or `E` with an optional sign and at least one digit (`1e5`, `2.5E-3`, `1e+05`).
//! Its value is known exactly; where it is a count of units of `10^-MAX_SCALE` that fits in
//! 64 bits it is held as a `Quantity`, so that splitting a demand into shares and adding the
//! shares back up loses nothing.

use vstd::prelude::*;

verus! {

/// The largest number of digits after the decimal point that a quantity can hold.
pub const MAX_SCALE: u32 = 18;

/// Ten to the power `k`.
pub open spec fn pow10(k: nat) -> nat
    decreases k,
{
    if k == 0 {
        1
    } else {
        10 * pow10((k - 1) as nat)
    }
}

pub open spec fn is_digit(c: char) -> bool {
    '0' <= c && c <= '9'
}

pub open spec fn digit_value(c: char) -> nat {
    (c as u32 - '0' as u32) as nat
}

/// What reading the characters of `s` left to right gives: the digits read so far as one number,
/// whether a decimal point has been seen, how many digits follow it, and how many digits there
/// are in all. `None` when `s` holds anything but digits and one decimal point.
pub open spec fn scan(s: Seq<char>) -> Option<(nat, bool, nat, nat)>
    decreases s.len(),
{
    if s.len() == 0 {
        Some((0, false, 0, 0))
    } else {
        match scan(s.drop_last()) {
            None => None,
            Some((v, dot, k, n)) => {
                let c = s.last();
                if is_digit(c) {
                    Some((10 * v + digit_value(c), dot, if dot { k + 1 } else { k }, n + 1))
                } else if c == '.' && !dot {
                    Some((v, true, k, n))
                } else {
                    None
                }
            },
        }
    }
}

/// How many leading characters of `s` are a sign.
pub open spec fn sign_len(s: Seq<char>) -> int {
    if s.len() > 0 && (s[0] == '+' || s[0] == '-') {
        1
    } else {
        0
    }
}

pub open spec fn is_exponent_marker(c: char) -> bool {
    c == 'e' || c == 'E'
}

/// The index of the first exponent marker in `s`, or `s.len()` when there is none.
pub open spec fn marker_pos(s: Seq<char>) -> int
    decreases s.len(),
{
    if s.len() == 0 {
        0
    } else {
        let p = marker_pos(s.drop_last());
        if p < s.len() - 1 {
            p
        } else if is_exponent_marker(s.last()) {
            s.len() - 1
        } else {
            s.len() as int
        }
    }
}

/// The exponent that the text after a marker writes: an optional sign and at least one digit.
pub open spec fn exponent_of(t: Seq<char>) -> Option<int> {
    match scan(t.subrange(sign_len(t), t.len() as int)) {
        Some((x, dot, _k, n)) => if !dot && n > 0 {
            Some(if sign_len(t) == 1 && t[0] == '-' { -(x as int) } else { x as int })
        } else {
            None
        },
        None => None,
    }
}

/// The number that `s` writes, as (is negative, mantissa `m`, power `e`): `(-1)^negative * m *
/// 10^e`. `None` when `s` is not a number.
pub open spec fn decimal_of(s: Seq<char>) -> Option<(bool, nat, int)> {
    let body = s.subrange(sign_len(s), s.len() as int);
    let p = marker_pos(body);
    let negative = sign_len(s) == 1 && s[0] == '-';
    match scan(body.subrange(0, p)) {
        Some((m, _dot, k, n)) => if n == 0 {
            None
        } else if p == body.len() {
            Some((negative, m, -(k as int)))
        } else {
            match exponent_of(body.subrange(p + 1, body.len() as int)) {
                Some(x) => Some((negative, m, x - k)),
                None => None,
            }
        },
        None => None,
    }
}

/// `10^max(e, 0)` and `10^max(-e, 0)`.
pub open spec fn pow10_up(e: int) -> nat {
    if e >= 0 {
        pow10(e as nat)
    } else {
        1
    }
}

pub open spec fn pow10_down(e: int) -> nat {
    if e < 0 {
        pow10((-e) as nat)
    } else {
        1
    }
}

/// The exact value of the number that `s` writes, as a fraction (numerator, positive
/// denominator).
pub open spec fn text_value(s: Seq<char>) -> (int, int) {
    let (negative, m, e) = decimal_of(s).unwrap();
    let numer = (m * pow10_up(e)) as int;
    (if negative { -numer } else { numer }, pow10_down(e) as int)
}

/// Whether a number can be held by a `Quantity`: zero, or a whole number up to `u64::MAX`, or
/// `m` up to `u64::MAX` units of `10^e` with `-MAX_SCALE <= e < 0`.
pub open spec fn fits(d: (bool, nat, int)) -> bool {
    let (_negative, m, e) = d;
    m == 0 || (e >= 0 && m * pow10(e as nat) <= u64::MAX) || (e < 0 && -e <= MAX_SCALE && m
        <= u64::MAX)
}

/// The `Quantity` that holds a number that fits.
pub open spec fn quantity_for(d: (bool, nat, int)) -> Quantity {
    let (negative, m, e) = d;
    if m == 0 {
        Quantity { negative, digits: 0, scale: 0 }
    } else if e >= 0 {
        Quantity { negative, digits: (m * pow10(e as nat)) as u64, scale: 0 }
    } else {
        Quantity { negative, digits: m as u64, scale: (-e) as u32 }
    }
}

/// What a cell's text is: not a number; a number held exactly; or a number too large, or with
/// too many digits after the point, for a `Quantity`.
#[derive(Clone, Copy, Debug)]
pub enum Reading {
    Text,
    Exact(Quantity),
    OutOfRange,
}

/// How `s` reads.
pub open spec fn reading_of(s: Seq<char>) -> Reading {
    match decimal_of(s) {
        None => Reading::Text,
        Some(d) => if fits(d) {
            Reading::Exact(quantity_for(d))
        } else {
            Reading::OutOfRange
        },
    }
}

/// A decimal number `(-1)^negative * digits / 10^scale`, held exactly.
#[derive(Clone, Copy, Debug)]
pub struct Quantity {
    pub negative: bool,
    pub digits: u64,
    pub scale: u32,
}

impl Quantity {
    pub open spec fn wf(self) -> bool {
        self.scale <= MAX_SCALE
    }

    /// The value's numerator over `denom()`.
    pub open spec fn numer(self) -> int {
        if self.negative {
            -(self.digits as int)
        } else {
            self.digits as int
        }
    }

    pub open spec fn denom(self) -> int {
        pow10(self.scale as nat) as int
    }

    /// The value as a fraction (numerator, positive denominator).
    pub open spec fn value(self) -> (int, int) {
        (self.numer(), self.denom())
    }

    pub open spec fn is_zero(self) -> bool {
        self.digits == 0
    }
}

/// Reading more characters never lowers the number read so far, the count of digits after the
/// point, or the count of digits; and a text that reads fails to read nowhere along the way.
pub proof fn lemma_scan_prefix(s: Seq<char>, j: int)
    requires
        0 <= j <= s.len(),
    ensures
        scan(s.subrange(0, j)) is None ==> scan(s) is None,
        scan(s) is Some ==> {
            let (v, _d, k, n) = scan(s).unwrap();
            let (v2, _d2, k2, n2) = scan(s.subrange(0, j)).unwrap();
            v2 <= v && k2 <= k && n2 <= n && (_d2 ==> _d)
        },
    decreases s.len() - j,
{
    if j < s.len() {
        lemma_scan_prefix(s, j + 1);
        let a = s.subrange(0, j);
        let b = s.subrange(0, j + 1);
        assert(b.drop_last() =~= a);
    } else {
        assert(s.subrange(0, j) =~= s);
    }
}

/// The first exponent marker at or after `start` in `s`, or `len`: `start + marker_pos` of the
/// text from `start`.
fn find_marker(s: &str, start: usize, len: usize) -> (r: usize)
    requires
        start <= len == s@.len(),
    ensures
        start <= r <= len,
        r - start == marker_pos(s@.subrange(start as int, len as int)),
{
    let ghost body = s@.subrange(start as int, len as int);
    let mut i = start;
    while i < len
        invariant
            start <= i <= len == s@.len(),
            body == s@.subrange(start as int, len as int),
            forall|j: int| 0 <= j < i - start ==> !is_exponent_marker(#[trigger] body[j]),
        decreases len - i,
    {
        let c = s.get_char(i);
        if c == 'e' || c == 'E' {
            proof {
                lemma_marker_pos(body, i - start);
            }
            return i;
        }
        i = i + 1;
    }
    proof {
        lemma_marker_pos(body, i - start);
    }
    i
}

proof fn lemma_marker_pos(t: Seq<char>, i: int)
    requires
        0 <= i <= t.len(),
        forall|j: int| 0 <= j < i ==> !is_exponent_marker(#[trigger] t[j]),
        i < t.len() ==> is_exponent_marker(t[i]),
    ensures
        marker_pos(t) == i,
    decreases t.len(),
{
    if t.len() > 0 {
        let u = t.drop_last();
        if i < t.len() - 1 {
            assert(u[i] == t[i]);
            lemma_marker_pos(u, i);
        } else {
            assert forall|j: int| 0 <= j < u.len() implies !is_exponent_marker(#[trigger] u[j]) by {
                assert(u[j] == t[j]);
            }
            lemma_marker_pos(u, u.len() as int);
        }
    }
}

/// What scanning digits (and at most one point) gave: whether the text reads at all, its
/// number (exact up to a cap, else only known to be above it), whether a point was seen, how
/// many digits follow it, and how many digits there are.
struct DigitScan {
    ok: bool,
    value: u128,
    big: bool,
    dot: bool,
    after_point: usize,
    digits: usize,
}

/// Scans `s[from..to]` as `scan` does, holding the number exactly while it is at most `cap`.
fn scan_digits(s: &str, from: usize, to: usize, cap: u128) -> (r: DigitScan)
    requires
        from <= to <= s@.len(),
        cap >= 9,
    ensures
        !r.ok <==> scan(s@.subrange(from as int, to as int)) is None,
        r.ok ==> {
            let (v, dot, k, n) = scan(s@.subrange(from as int, to as int)).unwrap();
            &&& dot == r.dot && k == r.after_point && n == r.digits
            &&& !r.big ==> v == r.value && r.value <= cap
            &&& r.big ==> v > cap
        },
{
    let ghost t = s@.subrange(from as int, to as int);
    let mut i = from;
    let mut value: u128 = 0;
    let mut big = false;
    let mut dot = false;
    let mut k: usize = 0;
    let mut n: usize = 0;
    assert(t.subrange(0, 0) =~= Seq::<char>::empty());
    while i < to
        invariant
            from <= i <= to <= s@.len(),
            t == s@.subrange(from as int, to as int),
            k <= n <= i - from,
            cap >= 9,
            ({
                let (v, d, kk, nn) = scan(t.subrange(0, i - from)).unwrap();
                &&& scan(t.subrange(0, i - from)) is Some
                &&& d == dot && kk == k && nn == n
                &&& !big ==> v == value && value <= cap
                &&& big ==> v > cap
            }),
        decreases to - i,
    {
        let c = s.get_char(i);
        let ghost next = t.subrange(0, i + 1 - from);
        proof {
            assert(next.drop_last() =~= t.subrange(0, i - from));
            assert(next.last() == c);
            lemma_scan_prefix(t, (i + 1 - from) as int);
            assert(t.subrange(0, t.len() as int) =~= t);
        }
        if '0' <= c && c <= '9' {
            let d = (c as u32 - '0' as u32) as u128;
            if !big {
                if value > (cap - d) / 10 {
                    big = true;
                } else {
                    value = value * 10 + d;
                }
            }
            if dot {
                k = k + 1;
            }
            n = n + 1;
        } else if c == '.' && !dot {
            dot = true;
        } else {
            assert(scan(next) is None);
            return DigitScan { ok: false, value, big, dot, after_point: k, digits: n };
        }
        i = i + 1;
    }
    assert(t.subrange(0, i - from) =~= t);
    DigitScan { ok: true, value, big, dot, after_point: k, digits: n }
}

/// Reads a cell's text: `Text` when it is not a number, the exact `Quantity` when the number
/// fits one, `OutOfRange` otherwise.
pub fn read_number(s: &str) -> (r: Reading)
    ensures
        r == reading_of(s@),
{
    let len = s.unicode_len();
    let mut start: usize = 0;
    let mut negative = false;
    if len > 0 {
        let c0 = s.get_char(0);
        if c0 == '+' || c0 == '-' {
            start = 1;
            negative = c0 == '-';
        }
    }
    let ghost body = s@.subrange(start as int, len as int);
    assert(start == sign_len(s@));
    let p = find_marker(s, start, len);
    assert(body.subrange(0, p - start) =~= s@.subrange(start as int, p as int));
    let m = scan_digits(s, start, p, 0xffff_ffff_ffff_ffffu128);
    if !m.ok || m.digits == 0 {
        return Reading::Text;
    }
    let mut x: u128 = 0;
    let mut x_big = false;
    let mut x_negative = false;
    if p < len {
        let ghost et = body.subrange(p + 1 - start, body.len() as int);
        assert(et =~= s@.subrange(p + 1, len as int));
        let mut q = p + 1;
        if q < len {
            let c = s.get_char(q);
            if c == '+' || c == '-' {
                x_negative = c == '-';
                q = q + 1;
            }
        }
        assert(q - (p + 1) == sign_len(et));
        assert(et.subrange(sign_len(et), et.len() as int) =~= s@.subrange(q as int, len as int));
        let e = scan_digits(s, q, len, 0x1_0000_0000_0000_0000_0000_0000u128);
        if !e.ok || e.dot || e.digits == 0 {
            return Reading::Text;
        }
        x = e.value;
        x_big = e.big;
    }
    let ghost d = decimal_of(s@).unwrap();
    assert(decimal_of(s@) is Some);
    if !m.big && m.value == 0 {
        return Reading::Exact(Quantity { negative, digits: 0, scale: 0 });
    }
    proof {
        lemma_pow10_positive(0);
    }
    if m.big {
        proof {
            let (_n, mm, ee) = d;
            if ee >= 0 {
                lemma_pow10_positive(ee as nat);
                assert(mm * pow10(ee as nat) >= mm) by (nonlinear_arith)
                    requires
                        pow10(ee as nat) >= 1,
                ;
            }
        }
        return Reading::OutOfRange;
    }
    if x_big {
        proof {
            let (_n, mm, ee) = d;
            if !x_negative {
                lemma_past_u64(mm, ee);
            }
        }
        return Reading::OutOfRange;
    }
    let e: i128 = if x_negative {
        -(x as i128)
    } else {
        x as i128
    } - (m.after_point as i128);
    assert(d.2 == e);
    assert(d.1 == m.value as nat);
    place_point(negative, m.value as u64, e)
}

/// The reading of the nonzero number `(-1)^negative * m * 10^e`.
fn place_point(negative: bool, m: u64, e: i128) -> (r: Reading)
    requires
        m >= 1,
    ensures
        r == (if fits((negative, m as nat, e as int)) {
            Reading::Exact(quantity_for((negative, m as nat, e as int)))
        } else {
            Reading::OutOfRange
        }),
{
    let ghost d = (negative, m as nat, e as int);
    if e >= 0 {
        if e > 19 {
            proof {
                lemma_past_u64(d.1, d.2);
            }
            return Reading::OutOfRange;
        }
        reveal_with_fuel(pow10, 1);
        assert(d.1 * pow10(0) == d.1) by (nonlinear_arith)
            requires
                pow10(0) == 1,
        ;
        let mut digits: u64 = m;
        let mut j: i128 = 0;
        while j < e
            invariant
                0 <= j <= e <= 19,
                d == (negative, m as nat, e as int),
                d.1 >= 1,
                digits as nat == d.1 * pow10(j as nat),
            decreases e - j,
        {
            assert(d.1 * pow10((j + 1) as nat) == 10 * (d.1 * pow10(j as nat))) by (
            nonlinear_arith)
                requires
                    pow10((j + 1) as nat) == 10 * pow10(j as nat),
            ;
            if digits > u64::MAX / 10 {
                proof {
                    lemma_mul_pow10_monotone(d.1, (j + 1) as nat, e as nat);
                }
                return Reading::OutOfRange;
            }
            digits = digits * 10;
            j = j + 1;
        }
        Reading::Exact(Quantity { negative, digits, scale: 0 })
    } else {
        if e < -18 {
            return Reading::OutOfRange;
        }
        Reading::Exact(Quantity { negative, digits: m, scale: (-e) as u32 })
    }
}

/// A number held exactly has the value that its text writes.
pub proof fn lemma_exact_value(s: Seq<char>)
    requires
        reading_of(s) is Exact,
    ensures
        same_ratio(reading_of(s)->Exact_0.value(), text_value(s)),
        reading_of(s)->Exact_0.wf(),
{
    let (negative, m, e) = decimal_of(s).unwrap();
    let d = decimal_of(s).unwrap();
    assert(fits(d));
    let q = quantity_for(d);
    assert(reading_of(s)->Exact_0 == q);
    let t = text_value(s);
    reveal_with_fuel(pow10, 1);
    if m == 0 {
        assert(m * pow10_up(e) == 0) by (nonlinear_arith)
            requires
                m == 0,
        ;
        assert(q.value() == (0int, 1int));
        assert(t.0 == 0);
        assert(same_ratio(q.value(), t)) by (nonlinear_arith)
            requires
                q.value() == (0int, 1int),
                t.0 == 0,
        ;
    } else if e >= 0 {
        assert(pow10_down(e) == 1);
        assert(q.digits == m * pow10(e as nat));
        assert(q.value() == t);
    } else {
        assert(pow10_up(e) == 1);
        assert(m * pow10_up(e) == m) by (nonlinear_arith)
            requires
                pow10_up(e) == 1,
        ;
        assert(q.value() == t);
    }
}

/// A number with at least one nonzero digit times `10^e`, for `e > 19`, is above `u64::MAX`.
proof fn lemma_past_u64(m: nat, e: int)
    requires
        m >= 1,
        e > 19,
    ensures
        m * pow10(e as nat) > u64::MAX,
{
    reveal_with_fuel(pow10, 21);
    assert(pow10(20) == 100_000_000_000_000_000_000);
    lemma_mul_pow10_monotone(m, 20, e as nat);
    assert(m * pow10(20) >= pow10(20)) by (nonlinear_arith)
        requires
            m >= 1,
            pow10(20) >= 1,
    ;
}

proof fn lemma_mul_pow10_monotone(m: nat, a: nat, b: nat)
    requires
        a <= b,
    ensures
        m * pow10(a) <= m * pow10(b),
{
    lemma_pow10_monotone(a, b);
    assert(m * pow10(a) <= m * pow10(b)) by (nonlinear_arith)
        requires
            pow10(a) <= pow10(b),
    ;
}

/// `10^k` for `k <= MAX_SCALE`.
pub fn pow10_u64(k: u32) -> (r: u64)
    requires
        k <= MAX_SCALE,
    ensures
        r as nat == pow10(k as nat),
{
    let mut r: u64 = 1;
    let mut i: u32 = 0;
    while i < k
        invariant
            i <= k <= MAX_SCALE,
            r as nat == pow10(i as nat),
        decreases k - i,
    {
        proof {
            lemma_pow10_bounded((i + 1) as nat);
        }
        r = r * 10;
        i = i + 1;
    }
    r
}

pub proof fn lemma_pow10_positive(k: nat)
    ensures
        pow10(k) >= 1,
    decreases k,
{
    if k > 0 {
        lemma_pow10_positive((k - 1) as nat);
    }
}

proof fn lemma_pow10_monotone(a: nat, b: nat)
    requires
        a <= b,
    ensures
        pow10(a) <= pow10(b),
    decreases b,
{
    if a < b {
        lemma_pow10_monotone(a, (b - 1) as nat);
        lemma_pow10_positive((b - 1) as nat);
    }
}

pub proof fn lemma_pow10_bounded(k: nat)
    requires
        k <= MAX_SCALE,
    ensures
        1 <= pow10(k) <= 1_000_000_000_000_000_000,
{
    reveal_with_fuel(pow10, 19);
    assert(pow10(18) == 1_000_000_000_000_000_000);
    lemma_pow10_monotone(k, 18);
    lemma_pow10_positive(k);
}

/// `ceil(a / b)` for `b > 0`.
pub open spec fn ceil_div(a: nat, b: nat) -> nat {
    ((a + b - 1) / (b as int)) as nat
}

/// How many trips a row whose demand is `q` is split into, when no trip may carry more than
/// `threshold`: `ceil(q / threshold)`, and one trip for a demand of zero, so that such a row is
/// kept rather than dropped.
pub open spec fn repeat_of(q: Quantity, threshold: nat) -> nat {
    if q.digits == 0 {
        1
    } else {
        ceil_div(q.digits as nat, (q.denom() * threshold) as nat)
    }
}

/// A demand that is not below zero.
pub open spec fn is_demand(q: Quantity) -> bool {
    q.wf() && (!q.negative || q.digits == 0)
}

/// The number of trips that a row with demand `q` stands for, when no trip may carry more than
/// `threshold`.
pub fn repeat_count(q: &Quantity, threshold: u64) -> (r: u64)
    requires
        is_demand(*q),
        threshold > 0,
    ensures
        r as nat == repeat_of(*q, threshold as nat),
        r >= 1,
        q.digits > 0 ==> r as int * (q.denom() * threshold) >= q.digits,
        q.digits > 0 ==> (r - 1) * (q.denom() * threshold) < q.digits,
{
    if q.digits == 0 {
        return 1;
    }
    let p = pow10_u64(q.scale);
    proof {
        lemma_pow10_bounded(q.scale as nat);
        assert((p as int) * (threshold as int) <= 1_000_000_000_000_000_000 * 0xffff_ffff_ffff_ffffint)
            by (nonlinear_arith)
            requires
                p <= 1_000_000_000_000_000_000int,
                threshold <= 0xffff_ffff_ffff_ffffint,
        ;
        assert((p as int) * (threshold as int) >= 1) by (nonlinear_arith)
            requires
                p >= 1,
                threshold >= 1,
        ;
    }
    let den: u128 = (p as u128) * (threshold as u128);
    let a = q.digits as u128;
    let r = (a + den - 1) / den;
    proof {
        let ai = a as int;
        let bi = den as int;
        let ri = r as int;
        assert(ri * bi >= ai && (ri - 1) * bi < ai && 1 <= ri <= ai) by (nonlinear_arith)
            requires
                bi >= 1,
                ai >= 1,
                ri == (ai + bi - 1) / bi,
        ;
    }
    r as u64
}

/// Two fractions with nonzero denominators stand for the same number.
pub open spec fn same_ratio(a: (int, int), b: (int, int)) -> bool {
    a.0 * b.1 == b.0 * a.1
}

pub open spec fn ratio_add(a: (int, int), b: (int, int)) -> (int, int) {
    (a.0 * b.1 + b.0 * a.1, a.1 * b.1)
}

/// `n` copies of `x` added up.
pub open spec fn repeated_sum(x: (int, int), n: nat) -> (int, int)
    decreases n,
{
    if n == 0 {
        (0, 1)
    } else {
        ratio_add(repeated_sum(x, (n - 1) as nat), x)
    }
}

/// The share of demand `q` that each trip of its row carries, as a fraction: `q / repeat_of`.
pub open spec fn share_of(q: Quantity, threshold: nat) -> (int, int) {
    (q.numer(), q.denom() * repeat_of(q, threshold))
}

/// The demands of all rows added up.
pub open spec fn demand_total(qs: Seq<Quantity>) -> (int, int)
    decreases qs.len(),
{
    if qs.len() == 0 {
        (0, 1)
    } else {
        ratio_add(demand_total(qs.drop_last()), qs.last().value())
    }
}

/// What the trips made from all rows carry, added up: each row gives `repeat_of` trips, each
/// carrying the row's share.
pub open spec fn trips_total(qs: Seq<Quantity>, threshold: nat) -> (int, int)
    decreases qs.len(),
{
    if qs.len() == 0 {
        (0, 1)
    } else {
        ratio_add(
            trips_total(qs.drop_last(), threshold),
            repeated_sum(
                share_of(qs.last(), threshold),
                repeat_of(qs.last(), threshold),
            ),
        )
    }
}

proof fn lemma_same_ratio_trans(a: (int, int), b: (int, int), c: (int, int))
    requires
        b.1 != 0,
        same_ratio(a, b),
        same_ratio(b, c),
    ensures
        same_ratio(a, c),
{
    assert(a.0 * c.1 == c.0 * a.1) by (nonlinear_arith)
        requires
            b.1 != 0,
            a.0 * b.1 == b.0 * a.1,
            b.0 * c.1 == c.0 * b.1,
    {
        assert(a.0 * c.1 * b.1 == b.0 * a.1 * c.1);
        assert(c.0 * a.1 * b.1 == b.0 * c.1 * a.1);
    }
}

proof fn lemma_add_congruent(a: (int, int), a2: (int, int), b: (int, int), b2: (int, int))
    requires
        same_ratio(a, a2),
        same_ratio(b, b2),
    ensures
        same_ratio(ratio_add(a, b), ratio_add(a2, b2)),
{
    let (x0, x1, y0, y1) = (a.0, a.1, a2.0, a2.1);
    let (u0, u1, v0, v1) = (b.0, b.1, b2.0, b2.1);
    assert(x0 * u1 * (y1 * v1) == y0 * v1 * (x1 * u1)) by (nonlinear_arith)
        requires
            x0 * y1 == y0 * x1,
    ;
    assert(u0 * x1 * (y1 * v1) == v0 * y1 * (x1 * u1)) by (nonlinear_arith)
        requires
            u0 * v1 == v0 * u1,
    ;
    assert((x0 * u1 + u0 * x1) * (y1 * v1) == x0 * u1 * (y1 * v1) + u0 * x1 * (y1 * v1))
        by (nonlinear_arith);
    assert((y0 * v1 + v0 * y1) * (x1 * u1) == y0 * v1 * (x1 * u1) + v0 * y1 * (x1 * u1))
        by (nonlinear_arith);
}

proof fn lemma_repeated_sum(x: (int, int), n: nat)
    requires
        x.1 > 0,
    ensures
        repeated_sum(x, n).1 > 0,
        same_ratio(repeated_sum(x, n), (n * x.0, x.1)),
    decreases n,
{
    if n == 0 {
        assert(n * x.0 == 0) by (nonlinear_arith)
            requires
                n == 0,
        ;
        assert(repeated_sum(x, n) == (0int, 1int));
        assert(same_ratio((0int, 1int), (n * x.0, x.1))) by (nonlinear_arith)
            requires
                n * x.0 == 0,
        ;
    } else {
        lemma_repeated_sum(x, (n - 1) as nat);
        let p = repeated_sum(x, (n - 1) as nat);
        let m = (n - 1) as int;
        assert(p.1 * x.1 > 0) by (nonlinear_arith)
            requires
                p.1 > 0,
                x.1 > 0,
        ;
        assert((p.0 * x.1 + x.0 * p.1) * x.1 == (n * x.0) * (p.1 * x.1)) by (nonlinear_arith)
            requires
                p.0 * x.1 == (m * x.0) * p.1,
                m == n - 1,
        ;
        assert(repeated_sum(x, n) == (p.0 * x.1 + x.0 * p.1, p.1 * x.1));
        assert(same_ratio((p.0 * x.1 + x.0 * p.1, p.1 * x.1), (n * x.0, x.1)));
    }
}

/// The trips made from one row carry, together, exactly the row's demand.
proof fn lemma_row_conserved(q: Quantity, threshold: nat)
    requires
        is_demand(q),
        threshold > 0,
        repeat_of(q, threshold) <= u64::MAX,
    ensures
        same_ratio(
            repeated_sum(share_of(q, threshold), repeat_of(q, threshold)),
            q.value(),
        ),
        repeated_sum(share_of(q, threshold), repeat_of(q, threshold)).1 > 0,
{
    let r = repeat_of(q, threshold);
    lemma_pow10_positive(q.scale as nat);
    lemma_repeat_positive(q, threshold);
    let x = share_of(q, threshold);
    assert(x.1 == q.denom() * r);
    assert(x.1 > 0) by (nonlinear_arith)
        requires
            x.1 == q.denom() * r,
            q.denom() >= 1,
            r >= 1,
    ;
    lemma_repeated_sum(x, r);
    assert(same_ratio((r * x.0, x.1), q.value())) by (nonlinear_arith)
        requires
            x.0 == q.numer(),
            x.1 == q.denom() * r,
    ;
    lemma_same_ratio_trans(repeated_sum(x, r), (r * x.0, x.1), q.value());
}

proof fn lemma_repeat_positive(q: Quantity, threshold: nat)
    requires
        q.wf(),
        threshold > 0,
    ensures
        repeat_of(q, threshold) >= 1,
{
    if q.digits > 0 {
        lemma_pow10_positive(q.scale as nat);
        let a = q.digits as int;
        let b = q.denom() * threshold;
        assert(b >= 1) by (nonlinear_arith)
            requires
                q.denom() >= 1,
                threshold >= 1,
                b == q.denom() * threshold,
        ;
        assert((a + b - 1) / b >= 1) by (nonlinear_arith)
            requires
                a >= 1,
                b >= 1,
        ;
    }
}

pub proof fn lemma_repeat_fits(q: Quantity, threshold: nat)
    requires
        q.wf(),
        threshold > 0,
    ensures
        repeat_of(q, threshold) <= u64::MAX,
{
    if q.digits > 0 {
        lemma_pow10_positive(q.scale as nat);
        let a = q.digits as int;
        let b = q.denom() * threshold;
        assert(b >= 1) by (nonlinear_arith)
            requires
                q.denom() >= 1,
                threshold >= 1,
                b == q.denom() * threshold,
        ;
        assert((a + b - 1) / b <= a) by (nonlinear_arith)
            requires
                a >= 1,
                b >= 1,
        ;
    }
}

/// Splitting demand loses nothing: for every table of demands and every threshold, what the
/// trips carry, added up over all trips of all rows, is exactly the demand added up over all rows.
pub proof fn lemma_conservation(qs: Seq<Quantity>, threshold: nat)
    requires
        threshold > 0,
        forall|i: int| 0 <= i < qs.len() ==> is_demand(#[trigger] qs[i]),
    ensures
        same_ratio(trips_total(qs, threshold), demand_total(qs)),
        trips_total(qs, threshold).1 > 0,
        demand_total(qs).1 > 0,
    decreases qs.len(),
{
    if qs.len() > 0 {
        let init = qs.drop_last();
        assert forall|i: int| 0 <= i < init.len() implies is_demand(#[trigger] init[i]) by {
            assert(init[i] == qs[i]);
        }
        lemma_conservation(init, threshold);
        let q = qs.last();
        assert(is_demand(q));
        lemma_repeat_fits(q, threshold);
        lemma_row_conserved(q, threshold);
        lemma_pow10_positive(q.scale as nat);
        let rs = repeated_sum(share_of(q, threshold), repeat_of(q, threshold));
        lemma_add_congruent(trips_total(init, threshold), demand_total(init), rs, q.value());
        let t = trips_total(init, threshold);
        let d = demand_total(init);
        assert(t.1 * rs.1 > 0 && d.1 * q.denom() > 0) by (nonlinear_arith)
            requires
                t.1 > 0,
                rs.1 > 0,
                d.1 > 0,
                q.denom() > 0,
        ;
    }
}

/// The threshold decides how many trips there are, not what they carry in all: two runs over
/// the same demands with different thresholds give the same total.
pub proof fn lemma_threshold_invariance(qs: Seq<Quantity>, threshold1: nat, threshold2: nat)
    requires
        threshold1 > 0,
        threshold2 > 0,
        forall|i: int| 0 <= i < qs.len() ==> is_demand(#[trigger] qs[i]),
    ensures
        same_ratio(trips_total(qs, threshold1), trips_total(qs, threshold2)),
{
    lemma_conservation(qs, threshold1);
    lemma_conservation(qs, threshold2);
    let a = trips_total(qs, threshold1);
    let b = demand_total(qs);
    let c = trips_total(qs, threshold2);
    assert(same_ratio(b, c)) by (nonlinear_arith)
        requires
            c.0 * b.1 == b.0 * c.1,
    ;
    lemma_same_ratio_trans(a, b, c);
}

} // verus!
